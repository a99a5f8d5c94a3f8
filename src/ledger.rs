//! One owner's simulated trading account: cash, open positions with
//! average-cost accounting, and the append-only history of filled orders.

use vstd::prelude::*;

use crate::error::AppError;
use crate::keyed::{
    keyed_map, lemma_keyed_at, lemma_keyed_push, lemma_keyed_remove, lemma_keyed_update, unique_keys,
};
use crate::model::{OrderSide, OrderStatus, OrderType};

verus! {

pub const U64_MAX: u64 = 0xffff_ffff_ffff_ffff;

pub const I128_MAX: i128 = 0x7fff_ffff_ffff_ffff_ffff_ffff_ffff_ffff;

pub open spec fn fits_i128(x: int) -> bool {
    -(I128_MAX as int) - 1 <= x <= I128_MAX as int
}

// ---------------------------------------------------------------------------
// The accounting model

/// An open position reduced to the numbers that the accounting works on.
pub struct Holding {
    pub quantity: int,
    /// What the units held have cost in all; the entry price is this over the quantity.
    pub cost_basis: int,
    pub realized_pnl: int,
}

/// Volume-weighted average cost of a holding, rounded down.
pub open spec fn entry_price_of(h: Holding) -> int {
    h.cost_basis / h.quantity
}

/// A holding after buying `quantity` at `price`.
pub open spec fn after_buy(held: Option<Holding>, quantity: int, price: int) -> Holding {
    match held {
        Some(h) => Holding {
            quantity: h.quantity + quantity,
            cost_basis: h.cost_basis + quantity * price,
            realized_pnl: h.realized_pnl,
        },
        None => Holding { quantity: quantity, cost_basis: quantity * price, realized_pnl: 0 },
    }
}

/// Profit realised by selling `quantity` at `price`.
pub open spec fn sale_pnl(h: Holding, quantity: int, price: int) -> int {
    (price - entry_price_of(h)) * quantity
}

/// A holding after selling part of it; the entry price stays as it was.
pub open spec fn after_sell(h: Holding, quantity: int, price: int) -> Holding {
    Holding {
        quantity: h.quantity - quantity,
        cost_basis: entry_price_of(h) * (h.quantity - quantity),
        realized_pnl: h.realized_pnl + sale_pnl(h, quantity, price),
    }
}

/// Cash and holdings by symbol: what an order reads and changes.
pub struct Book {
    pub balance: int,
    pub holdings: Map<Seq<char>, Holding>,
}

pub open spec fn holding_in(book: Book, symbol: Seq<char>) -> Option<Holding> {
    if book.holdings.contains_key(symbol) {
        Some(book.holdings[symbol])
    } else {
        None
    }
}

/// The book after a market order fills at `price`, or the reason it is refused.
pub open spec fn order_outcome(
    book: Book,
    symbol: Seq<char>,
    side: OrderSide,
    quantity: int,
    price: int,
) -> Result<Book, AppError> {
    let held = holding_in(book, symbol);
    let amount = quantity * price;
    if quantity == 0 {
        Err(AppError::OutOfRange)
    } else {
        match side {
            OrderSide::Buy => {
                if amount > book.balance {
                    Err(AppError::InsufficientBalance)
                } else if after_buy(held, quantity, price).quantity > U64_MAX {
                    Err(AppError::OutOfRange)
                } else {
                    Ok(
                        Book {
                            balance: book.balance - amount,
                            holdings: book.holdings.insert(symbol, after_buy(held, quantity, price)),
                        },
                    )
                }
            },
            OrderSide::Sell => match held {
                None => Err(AppError::NoPosition),
                Some(h) => {
                    if h.quantity < quantity {
                        Err(AppError::InsufficientQuantity)
                    } else if book.balance + amount > U64_MAX {
                        Err(AppError::OutOfRange)
                    } else if h.quantity == quantity {
                        Ok(
                            Book {
                                balance: book.balance + amount,
                                holdings: book.holdings.remove(symbol),
                            },
                        )
                    } else if !(-(I128_MAX as int) <= sale_pnl(h, quantity, price) <= I128_MAX
                        && fits_i128(after_sell(h, quantity, price).realized_pnl)) {
                        Err(AppError::OutOfRange)
                    } else {
                        Ok(
                            Book {
                                balance: book.balance + amount,
                                holdings: book.holdings.insert(
                                    symbol,
                                    after_sell(h, quantity, price),
                                ),
                            },
                        )
                    }
                },
            },
        }
    }
}

// ---------------------------------------------------------------------------
// Records

/// An open position of one symbol.
#[derive(Debug)]
pub struct Position {
    pub id: u64,
    pub symbol: String,
    pub quantity: u64,
    pub entry_price: u64,
    pub cost_basis: u128,
    pub current_price: u64,
    pub unrealized_pnl: i128,
    pub realized_pnl: i128,
    pub side: OrderSide,
    pub opened_at: i64,
    pub updated_at: i64,
}

impl Position {
    pub open spec fn holding(&self) -> Holding {
        Holding {
            quantity: self.quantity as int,
            cost_basis: self.cost_basis as int,
            realized_pnl: self.realized_pnl as int,
        }
    }

    /// A held quantity, a cost that fits the quantity, and the entry price
    /// that the cost gives.
    pub open spec fn wf(&self) -> bool {
        &&& self.quantity > 0
        &&& self.cost_basis <= self.quantity * U64_MAX
        &&& self.entry_price == (self.cost_basis as int) / (self.quantity as int)
    }

    /// A field-for-field copy.
    pub fn duplicate(&self) -> (r: Position)
        ensures
            r == *self,
    {
        Position {
            id: self.id,
            symbol: self.symbol.clone(),
            quantity: self.quantity,
            entry_price: self.entry_price,
            cost_basis: self.cost_basis,
            current_price: self.current_price,
            unrealized_pnl: self.unrealized_pnl,
            realized_pnl: self.realized_pnl,
            side: self.side,
            opened_at: self.opened_at,
            updated_at: self.updated_at,
        }
    }
}

/// The immutable record of one fill.
#[derive(Debug)]
pub struct Order {
    pub id: u64,
    pub symbol: String,
    pub order_type: OrderType,
    pub side: OrderSide,
    pub quantity: u64,
    pub price: u64,
    pub status: OrderStatus,
    /// The position that the fill changed, which may since have been closed.
    pub position_id: Option<u64>,
    pub created_at: i64,
    pub filled_at: i64,
}

impl Order {
    /// A field-for-field copy.
    pub fn duplicate(&self) -> (r: Order)
        ensures
            r == *self,
    {
        Order {
            id: self.id,
            symbol: self.symbol.clone(),
            order_type: self.order_type,
            side: self.side,
            quantity: self.quantity,
            price: self.price,
            status: self.status,
            position_id: self.position_id,
            created_at: self.created_at,
            filled_at: self.filled_at,
        }
    }
}

// ---------------------------------------------------------------------------
// Positions as a map

pub open spec fn position_symbol() -> spec_fn(Position) -> Seq<char> {
    |p: Position| p.symbol@
}

pub open spec fn position_holding() -> spec_fn(Position) -> Holding {
    |p: Position| p.holding()
}

pub open spec fn symbols_unique(ps: Seq<Position>) -> bool {
    unique_keys(ps, position_symbol())
}

/// The holdings of a list of positions, by symbol.
pub open spec fn holdings_of(ps: Seq<Position>) -> Map<Seq<char>, Holding> {
    keyed_map(ps, position_symbol(), position_holding())
}

proof fn lemma_holdings_at(ps: Seq<Position>, i: int)
    requires
        symbols_unique(ps),
        0 <= i < ps.len(),
    ensures
        holdings_of(ps).contains_key(ps[i].symbol@),
        holdings_of(ps)[ps[i].symbol@] == ps[i].holding(),
{
    lemma_keyed_at(ps, position_symbol(), position_holding(), i);
}

proof fn lemma_holdings_update(ps: Seq<Position>, i: int, p: Position)
    requires
        symbols_unique(ps),
        0 <= i < ps.len(),
        p.symbol@ == ps[i].symbol@,
    ensures
        symbols_unique(ps.update(i, p)),
        holdings_of(ps.update(i, p)) == holdings_of(ps).insert(p.symbol@, p.holding()),
{
    lemma_keyed_update(ps, position_symbol(), position_holding(), i, p);
}

proof fn lemma_holdings_push(ps: Seq<Position>, p: Position)
    requires
        symbols_unique(ps),
        !holdings_of(ps).contains_key(p.symbol@),
    ensures
        symbols_unique(ps.push(p)),
        holdings_of(ps.push(p)) == holdings_of(ps).insert(p.symbol@, p.holding()),
{
    lemma_keyed_push(ps, position_symbol(), position_holding(), p);
}

proof fn lemma_holdings_remove(ps: Seq<Position>, i: int)
    requires
        symbols_unique(ps),
        0 <= i < ps.len(),
    ensures
        symbols_unique(ps.remove(i)),
        holdings_of(ps.remove(i)) == holdings_of(ps).remove(ps[i].symbol@),
{
    lemma_keyed_remove(ps, position_symbol(), position_holding(), i);
}

// ---------------------------------------------------------------------------
// Valuation

/// Market value of the first `n` positions at `prices`.
pub open spec fn value_upto(ps: Seq<Position>, prices: Seq<u64>, n: int) -> int
    decreases n,
{
    if n <= 0 {
        0
    } else {
        value_upto(ps, prices, n - 1) + ps[n - 1].quantity * prices[n - 1]
    }
}

/// Unrealised gains of the first `n` positions at `prices` (losses count as zero).
pub open spec fn gains_upto(ps: Seq<Position>, prices: Seq<u64>, n: int) -> int
    decreases n,
{
    if n <= 0 {
        0
    } else {
        gains_upto(ps, prices, n - 1) + if prices[n - 1] >= ps[n - 1].entry_price {
            (prices[n - 1] - ps[n - 1].entry_price) * ps[n - 1].quantity
        } else {
            0
        }
    }
}

/// Unrealised losses of the first `n` positions at `prices`, as a positive amount.
pub open spec fn losses_upto(ps: Seq<Position>, prices: Seq<u64>, n: int) -> int
    decreases n,
{
    if n <= 0 {
        0
    } else {
        losses_upto(ps, prices, n - 1) + if prices[n - 1] < ps[n - 1].entry_price {
            (ps[n - 1].entry_price - prices[n - 1]) * ps[n - 1].quantity
        } else {
            0
        }
    }
}

proof fn lemma_sum_steps_nonnegative(ps: Seq<Position>, prices: Seq<u64>, k: int)
    requires
        0 <= k < ps.len(),
        ps.len() == prices.len(),
    ensures
        value_upto(ps, prices, k + 1) >= value_upto(ps, prices, k),
        gains_upto(ps, prices, k + 1) >= gains_upto(ps, prices, k),
        losses_upto(ps, prices, k + 1) >= losses_upto(ps, prices, k),
{
    let q = ps[k].quantity as int;
    let p = prices[k] as int;
    let e = ps[k].entry_price as int;
    assert(0 <= q * p) by (nonlinear_arith)
        requires
            q >= 0,
            p >= 0,
    ;
    if p >= e {
        assert(0 <= (p - e) * q) by (nonlinear_arith)
            requires
                q >= 0,
                p >= e,
        ;
    } else {
        assert(0 <= (e - p) * q) by (nonlinear_arith)
            requires
                q >= 0,
                e > p,
        ;
    }
}

proof fn lemma_sums_grow(ps: Seq<Position>, prices: Seq<u64>, n: int, m: int)
    requires
        0 <= n <= m <= ps.len(),
        ps.len() == prices.len(),
    ensures
        0 <= value_upto(ps, prices, n) <= value_upto(ps, prices, m),
        0 <= gains_upto(ps, prices, n) <= gains_upto(ps, prices, m),
        0 <= losses_upto(ps, prices, n) <= losses_upto(ps, prices, m),
    decreases m,
{
    if m > 0 {
        if n < m {
            lemma_sums_grow(ps, prices, n, m - 1);
        } else {
            lemma_sums_grow(ps, prices, m - 1, m - 1);
        }
        lemma_sum_steps_nonnegative(ps, prices, m - 1);
    }
}

/// `(total - initial) * 10000 / initial`, rounded towards zero.
pub open spec fn performance_of(total: int, initial: int) -> int {
    if total >= initial {
        (total - initial) * 10000 / initial
    } else {
        -((initial - total) * 10000 / initial)
    }
}

/// An account valued at given prices. Performance is in hundredths of a percent.
#[derive(Debug)]
pub struct BalanceSummary {
    pub cash_balance: u64,
    pub position_value: u128,
    pub unrealized_pnl: i128,
    pub total_account_value: i128,
    pub initial_balance: u64,
    pub performance: Option<i128>,
}

/// Activity and overall profit of an account.
#[derive(Debug)]
pub struct TradingStatsResponse {
    pub total_trades: u64,
    pub total_pnl: i128,
    pub pnl_percentage: Option<i128>,
    pub current_balance: u64,
}

pub const U128_MAX: u128 = 0xffff_ffff_ffff_ffff_ffff_ffff_ffff_ffff;

/// Whether the valuation of `ps` at `prices` fits the summary's integers.
pub open spec fn valuation_fits(ps: Seq<Position>, prices: Seq<u64>, cash: int, initial: int) -> bool {
    let n = ps.len() as int;
    let value = value_upto(ps, prices, n);
    let gains = gains_upto(ps, prices, n);
    let losses = losses_upto(ps, prices, n);
    let total = cash + value + gains - losses;
    &&& value <= U128_MAX
    &&& gains <= U128_MAX
    &&& losses <= U128_MAX
    &&& fits_i128(gains - losses)
    &&& cash + value + gains <= U128_MAX
    &&& magnitude_of(total) <= I128_MAX
    &&& initial > 0 ==> {
        &&& magnitude_of(total - initial) * 10000 <= U128_MAX
        &&& -(I128_MAX as int) <= performance_of(total, initial) <= I128_MAX
    }
}

/// The position of `symbol` after a buy of `quantity` at `price`: the cost
/// is added, the entry price recomputed, and the fill price becomes current.
pub open spec fn bought_position(p: Position, quantity: u64, price: u64, now: i64) -> Position {
    Position {
        quantity: (p.quantity + quantity) as u64,
        cost_basis: (p.cost_basis + quantity * price) as u128,
        entry_price: ((p.cost_basis + quantity * price) / (p.quantity + quantity)) as u64,
        current_price: price,
        updated_at: now,
        ..p
    }
}

/// The position after part of it is sold at `price`: it keeps its id and
/// entry price, and realises `(price - entry) * quantity`.
pub open spec fn sold_position(p: Position, quantity: u64, price: u64, now: i64) -> Position {
    Position {
        quantity: (p.quantity - quantity) as u64,
        cost_basis: (p.entry_price * (p.quantity - quantity)) as u128,
        current_price: price,
        realized_pnl: (p.realized_pnl + (price - p.entry_price) * quantity) as i128,
        updated_at: now,
        ..p
    }
}

/// The long position that a first buy of `symbol` opens; its id is the
/// id of the order that opened it.
pub open spec fn opened_position(id: u64, symbol: String, quantity: u64, price: u64, now: i64) -> Position {
    Position {
        id,
        symbol,
        quantity,
        entry_price: price,
        cost_basis: (quantity * price) as u128,
        current_price: price,
        unrealized_pnl: 0,
        realized_pnl: 0,
        side: OrderSide::Buy,
        opened_at: now,
        updated_at: now,
    }
}

/// The records that an accepted order `o` leaves on an account: `o` is
/// appended to the log, filled at `price` and linked to the position it
/// changed (which a sale of everything removes), and that position alone
/// changes in the list.
pub open spec fn fill_recorded(
    before: PaperAccount,
    after: PaperAccount,
    symbol: String,
    side: OrderSide,
    quantity: u64,
    price: u64,
    now: i64,
    o: Order,
) -> bool {
    let ps = before.position_list();
    let qs = after.position_list();
    &&& after.order_log() == before.order_log().push(o)
    &&& o == Order {
        id: before.order_log().len() as u64,
        symbol,
        order_type: OrderType::Market,
        side,
        quantity,
        price,
        status: OrderStatus::Filled,
        position_id: o.position_id,
        created_at: now,
        filled_at: now,
    }
    &&& forall|i: int|
        0 <= i < ps.len() && (#[trigger] ps[i]).symbol@ == symbol@ ==> {
            &&& o.position_id == Some(ps[i].id)
            &&& side == OrderSide::Buy ==> qs == ps.update(i, bought_position(ps[i], quantity, price, now))
            &&& side == OrderSide::Sell && quantity == ps[i].quantity ==> qs == ps.remove(i)
            &&& side == OrderSide::Sell && quantity < ps[i].quantity ==> qs == ps.update(
                i,
                sold_position(ps[i], quantity, price, now),
            )
        }
    &&& (forall|i: int| 0 <= i < ps.len() ==> (#[trigger] ps[i]).symbol@ != symbol@) ==> {
        &&& o.position_id == Some(o.id)
        &&& qs == ps.push(opened_position(o.id, symbol, quantity, price, now))
    }
}


/// Whether the balance summary of `a` at `prices` fits its integer types.
pub open spec fn summary_fits(a: PaperAccount, prices: Seq<u64>) -> bool {
    valuation_fits(a.position_list(), prices, a.cash(), a.funding())
}

/// `s` is the balance summary of `a` at `prices`.
pub open spec fn summary_of(a: PaperAccount, prices: Seq<u64>, s: BalanceSummary) -> bool {
    let ps = a.position_list();
    let n = ps.len() as int;
    let total = a.cash() + value_upto(ps, prices, n) + gains_upto(ps, prices, n) - losses_upto(
        ps,
        prices,
        n,
    );
    &&& s.cash_balance == a.cash()
    &&& s.position_value == value_upto(ps, prices, n)
    &&& s.unrealized_pnl == gains_upto(ps, prices, n) - losses_upto(ps, prices, n)
    &&& s.total_account_value == total
    &&& s.initial_balance == a.funding()
    &&& s.performance == if a.funding() == 0 {
        None::<i128>
    } else {
        Some(performance_of(total, a.funding()) as i128)
    }
}

/// Cash plus unrealised profit at `prices`, less the initial funding.
pub open spec fn account_pnl(a: PaperAccount, prices: Seq<u64>) -> int {
    let ps = a.position_list();
    let n = ps.len() as int;
    a.cash() + gains_upto(ps, prices, n) - losses_upto(ps, prices, n) - a.funding()
}

pub open spec fn magnitude_of(x: int) -> int {
    if x >= 0 {
        x
    } else {
        -x
    }
}

/// Whether the trading statistics of `a` at `prices` fit their integer types.
pub open spec fn stats_fit(a: PaperAccount, prices: Seq<u64>) -> bool {
    let ps = a.position_list();
    let n = ps.len() as int;
    let magnitude = magnitude_of(account_pnl(a, prices));
    &&& value_upto(ps, prices, n) <= U128_MAX
    &&& gains_upto(ps, prices, n) <= U128_MAX
    &&& losses_upto(ps, prices, n) <= U128_MAX
    &&& magnitude <= I128_MAX
    &&& a.funding() > 0 ==> magnitude * 10000 <= U128_MAX && magnitude * 10000 / a.funding()
        <= I128_MAX
}

/// `s` holds the trading statistics of `a` at `prices`; the percentage is
/// in hundredths of a percent, rounded towards zero.
pub open spec fn stats_of(a: PaperAccount, prices: Seq<u64>, s: TradingStatsResponse) -> bool {
    let pnl = account_pnl(a, prices);
    let magnitude = magnitude_of(pnl);
    &&& s.total_trades == a.order_log().len()
    &&& s.total_pnl == pnl
    &&& s.current_balance == a.cash()
    &&& s.pnl_percentage == if a.funding() == 0 {
        None::<i128>
    } else if pnl >= 0 {
        Some((magnitude * 10000 / a.funding()) as i128)
    } else {
        Some((-(magnitude * 10000 / a.funding())) as i128)
    }
}

// ---------------------------------------------------------------------------
// The account

/// One owner's cash balance, open positions and order history.
#[derive(Debug)]
pub struct PaperAccount {
    user_id: String,
    initial_balance: u64,
    balance: u64,
    positions: Vec<Position>,
    orders: Vec<Order>,
}

impl PaperAccount {
    pub closed spec fn wf(&self) -> bool {
        &&& symbols_unique(self.positions@)
        &&& forall|i: int| 0 <= i < self.positions.len() ==> (#[trigger] self.positions[i]).wf()
    }

    pub closed spec fn owner(&self) -> Seq<char> {
        self.user_id@
    }

    pub closed spec fn funding(&self) -> int {
        self.initial_balance as int
    }

    pub closed spec fn cash(&self) -> int {
        self.balance as int
    }

    pub closed spec fn position_list(&self) -> Seq<Position> {
        self.positions@
    }

    pub closed spec fn order_log(&self) -> Seq<Order> {
        self.orders@
    }

    /// Cash and holdings by symbol.
    pub open spec fn book(&self) -> Book {
        Book { balance: self.cash(), holdings: self.holdings() }
    }

    pub closed spec fn holdings(&self) -> Map<Seq<char>, Holding> {
        holdings_of(self.positions@)
    }

    /// The book of a well-formed account has no negative cash and no empty holding.
    pub proof fn lemma_book_wf(&self)
        requires
            self.wf(),
        ensures
            book_wf(self.book()),
    {
        assert forall|s: Seq<char>| #[trigger] self.holdings().contains_key(s) implies self.holdings()[s].quantity
            > 0 && self.holdings()[s].cost_basis >= 0 by {
            let i = choose|i: int|
                0 <= i < self.positions.len() && (position_symbol())(#[trigger] self.positions@[i]) == s;
            lemma_holdings_at(self.positions@, i);
            assert(self.positions[i].wf());
        }
    }

    /// A fresh account funded with `initial_balance`.
    pub fn new(user_id: String, initial_balance: u64) -> (r: PaperAccount)
        ensures
            r.wf(),
            r.owner() == user_id@,
            r.funding() == initial_balance,
            r.cash() == initial_balance,
            r.holdings() == Map::<Seq<char>, Holding>::empty(),
            r.position_list().len() == 0,
            r.order_log().len() == 0,
    {
        let r = PaperAccount {
            user_id,
            initial_balance,
            balance: initial_balance,
            positions: Vec::new(),
            orders: Vec::new(),
        };
        assert(holdings_of(r.positions@) =~= Map::<Seq<char>, Holding>::empty());
        r
    }

    pub fn user_id(&self) -> (r: &String)
        ensures
            r@ == self.owner(),
    {
        &self.user_id
    }

    pub fn initial_balance(&self) -> (r: u64)
        ensures
            r == self.funding(),
    {
        self.initial_balance
    }

    pub fn balance(&self) -> (r: u64)
        ensures
            r == self.cash(),
    {
        self.balance
    }

    pub fn positions(&self) -> (r: &Vec<Position>)
        ensures
            r@ == self.position_list(),
    {
        &self.positions
    }

    pub fn orders(&self) -> (r: &Vec<Order>)
        ensures
            r@ == self.order_log(),
    {
        &self.orders
    }

    /// The index of the open position in `symbol`, if there is one.
    pub fn find_position(&self, symbol: &String) -> (r: Option<usize>)
        requires
            self.wf(),
        ensures
            r matches Some(i) ==> i < self.position_list().len() && self.position_list()[i as int].symbol@
                == symbol@ && self.holdings().contains_key(symbol@) && self.holdings()[symbol@]
                == self.position_list()[i as int].holding(),
            r is None ==> !self.holdings().contains_key(symbol@),
    {
        let mut i: usize = 0;
        while i < self.positions.len()
            invariant
                self.wf(),
                i <= self.positions.len(),
                forall|k: int| 0 <= k < i ==> #[trigger] self.positions[k].symbol@ != symbol@,
            decreases self.positions.len() - i,
        {
            if self.positions[i].symbol == *symbol {
                proof {
                    lemma_holdings_at(self.positions@, i as int);
                }
                return Some(i);
            }
            i = i + 1;
        }
        None
    }

    /// Refreshes position `i` against a fresh `price`: its current price and
    /// its unrealised profit `(price - entry) * quantity`. The holdings do
    /// not change. A profit too large for the ledger is refused and changes
    /// nothing.
    pub fn mark_position(&mut self, i: usize, price: u64) -> (r: Result<(), AppError>)
        requires
            old(self).wf(),
            i < old(self).position_list().len(),
        ensures
            final(self).wf(),
            ({
                let p = old(self).position_list()[i as int];
                let pnl = (price - p.entry_price) * p.quantity;
                &&& -(I128_MAX as int) <= pnl <= I128_MAX ==> {
                    &&& r is Ok
                    &&& final(self).book() == old(self).book()
                    &&& final(self).owner() == old(self).owner()
                    &&& final(self).funding() == old(self).funding()
                    &&& final(self).order_log() == old(self).order_log()
                    &&& final(self).position_list() == old(self).position_list().update(
                        i as int,
                        Position { current_price: price, unrealized_pnl: pnl as i128, ..p },
                    )
                }
                &&& !(-(I128_MAX as int) <= pnl <= I128_MAX) ==> r == Err::<(), AppError>(
                    AppError::OutOfRange,
                ) && *final(self) == *old(self)
            }),
    {
        let entry = self.positions[i].entry_price;
        let quantity = self.positions[i].quantity;
        let pnl: i128;
        if price >= entry {
            proof {
                lemma_product_fits((price - entry) as int, quantity as int);
            }
            let magnitude = (price - entry) as u128 * quantity as u128;
            if magnitude > I128_MAX as u128 {
                return Err(AppError::OutOfRange);
            }
            pnl = magnitude as i128;
        } else {
            proof {
                lemma_product_fits((entry - price) as int, quantity as int);
                assert(-((entry - price) * quantity) == (price - entry) * quantity) by (nonlinear_arith);
            }
            let magnitude = (entry - price) as u128 * quantity as u128;
            if magnitude > I128_MAX as u128 {
                return Err(AppError::OutOfRange);
            }
            pnl = 0 - magnitude as i128;
        }
        let ghost ps = self.positions@;
        let updated = Position {
            id: self.positions[i].id,
            symbol: self.positions[i].symbol.clone(),
            quantity,
            entry_price: entry,
            cost_basis: self.positions[i].cost_basis,
            current_price: price,
            unrealized_pnl: pnl,
            realized_pnl: self.positions[i].realized_pnl,
            side: self.positions[i].side,
            opened_at: self.positions[i].opened_at,
            updated_at: self.positions[i].updated_at,
        };
        let ghost written = updated;
        self.positions[i] = updated;
        proof {
            assert(self.positions@ == ps.update(i as int, written));
            lemma_holdings_update(ps, i as int, written);
            lemma_holdings_at(ps, i as int);
            assert(holdings_of(ps).insert(written.symbol@, written.holding()) =~= holdings_of(ps));
        }
        Ok(())
    }

    /// The value, unrealised gains and unrealised losses of the positions
    /// at `prices`, when each fits in 128 bits.
    fn valuation(&self, prices: &Vec<u64>) -> (r: Option<(u128, u128, u128)>)
        requires
            prices.len() == self.position_list().len(),
        ensures
            ({
                let ps = self.position_list();
                let n = ps.len() as int;
                let fits = value_upto(ps, prices@, n) <= U128_MAX && gains_upto(ps, prices@, n)
                    <= U128_MAX && losses_upto(ps, prices@, n) <= U128_MAX;
                &&& r is Some <==> fits
                &&& r matches Some((v, g, l)) ==> v == value_upto(ps, prices@, n) && g == gains_upto(
                    ps,
                    prices@,
                    n,
                ) && l == losses_upto(ps, prices@, n)
            }),
    {
        let ghost ps = self.positions@;
        let n = self.positions.len();
        let mut value: u128 = 0;
        let mut gains: u128 = 0;
        let mut losses: u128 = 0;
        let mut i: usize = 0;
        while i < n
            invariant
                n == self.positions.len() == prices.len(),
                ps == self.positions@,
                i <= n,
                value == value_upto(ps, prices@, i as int),
                gains == gains_upto(ps, prices@, i as int),
                losses == losses_upto(ps, prices@, i as int),
            decreases n - i,
        {
            let q = self.positions[i].quantity;
            let e = self.positions[i].entry_price;
            let p = prices[i];
            proof {
                lemma_product_fits(q as int, p as int);
                lemma_sums_grow(ps, prices@, i as int + 1, n as int);
                assert(q * p == p * q) by (nonlinear_arith);
            }
            let worth = q as u128 * p as u128;
            if value > U128_MAX - worth {
                return None;
            }
            value = value + worth;
            if p >= e {
                proof {
                    lemma_product_fits((p - e) as int, q as int);
                }
                let g = (p - e) as u128 * q as u128;
                if gains > U128_MAX - g {
                    return None;
                }
                gains = gains + g;
            } else {
                proof {
                    lemma_product_fits((e - p) as int, q as int);
                }
                let l = (e - p) as u128 * q as u128;
                if losses > U128_MAX - l {
                    return None;
                }
                losses = losses + l;
            }
            i = i + 1;
        }
        Some((value, gains, losses))
    }

    /// Cash, the value of the positions at `prices` (one price per
    /// position, in order), their unrealised profit, the total value, and
    /// the performance against the initial funding in hundredths of a
    /// percent (none for an account funded with nothing). The total is cash
    /// plus the market value of the positions plus their unrealised profit,
    /// and the performance is measured on that total. Refused when a figure
    /// does not fit its integer type.
    pub fn balance_summary(&self, prices: &Vec<u64>) -> (r: Result<BalanceSummary, AppError>)
        requires
            prices.len() == self.position_list().len(),
        ensures
            summary_fits(*self, prices@) ==> (r matches Ok(s) && summary_of(*self, prices@, s)),
            !summary_fits(*self, prices@) ==> r == Err::<BalanceSummary, AppError>(
                AppError::OutOfRange,
            ),
    {
        let (value, gains, losses) = match self.valuation(prices) {
            None => {
                return Err(AppError::OutOfRange);
            },
            Some(v) => v,
        };
        let pnl: i128 = if gains >= losses {
            if gains - losses > I128_MAX as u128 {
                return Err(AppError::OutOfRange);
            }
            (gains - losses) as i128
        } else {
            if losses - gains > I128_MAX as u128 + 1 {
                return Err(AppError::OutOfRange);
            }
            if losses - gains == I128_MAX as u128 + 1 {
                -I128_MAX - 1
            } else {
                0 - (losses - gains) as i128
            }
        };
        let cash = self.balance as u128;
        if value > U128_MAX - cash || gains > U128_MAX - cash - value {
            return Err(AppError::OutOfRange);
        }
        let credit = cash + value + gains;
        let total: i128 = if credit >= losses {
            if credit - losses > I128_MAX as u128 {
                return Err(AppError::OutOfRange);
            }
            (credit - losses) as i128
        } else {
            if losses - credit > I128_MAX as u128 {
                return Err(AppError::OutOfRange);
            }
            0 - (losses - credit) as i128
        };
        let initial = self.initial_balance as u128;
        let performance = if initial == 0 {
            None
        } else {
            let ahead = total >= 0 && total as u128 >= initial;
            let gap: u128 = if ahead {
                total as u128 - initial
            } else if total >= 0 {
                initial - total as u128
            } else {
                (0 - total) as u128 + initial
            };
            if gap > U128_MAX / 10000 {
                return Err(AppError::OutOfRange);
            }
            let scaled = gap * 10000 / initial;
            if scaled > I128_MAX as u128 {
                return Err(AppError::OutOfRange);
            }
            if ahead {
                Some(scaled as i128)
            } else {
                Some(0 - scaled as i128)
            }
        };
        Ok(
            BalanceSummary {
                cash_balance: self.balance,
                position_value: value,
                unrealized_pnl: pnl,
                total_account_value: total,
                initial_balance: self.initial_balance,
                performance,
            },
        )
    }

    /// Trade count and overall profit: cash plus unrealised profit at
    /// `prices` less the initial funding, also in hundredths of a percent of
    /// that funding (none for an account funded with nothing). Refused when
    /// a figure does not fit its integer type.
    pub fn trading_stats(&self, prices: &Vec<u64>) -> (r: Result<TradingStatsResponse, AppError>)
        requires
            prices.len() == self.position_list().len(),
        ensures
            stats_fit(*self, prices@) ==> (r matches Ok(s) && stats_of(*self, prices@, s)),
            !stats_fit(*self, prices@) ==> r == Err::<TradingStatsResponse, AppError>(
                AppError::OutOfRange,
            ),
    {
        let (_value, gains, losses) = match self.valuation(prices) {
            None => {
                return Err(AppError::OutOfRange);
            },
            Some(v) => v,
        };
        let cash = self.balance as u128;
        let initial = self.initial_balance as u128;
        let positive: bool;
        let magnitude: u128;
        if gains >= losses {
            let net = gains - losses;
            if net > U128_MAX - cash {
                return Err(AppError::OutOfRange);
            }
            let credit = net + cash;
            positive = credit >= initial;
            magnitude = if positive {
                credit - initial
            } else {
                initial - credit
            };
        } else {
            let net = losses - gains;
            if net > U128_MAX - initial {
                return Err(AppError::OutOfRange);
            }
            let debit = net + initial;
            positive = cash >= debit;
            magnitude = if positive {
                cash - debit
            } else {
                debit - cash
            };
        }
        if magnitude > I128_MAX as u128 {
            return Err(AppError::OutOfRange);
        }
        let pnl = if positive {
            magnitude as i128
        } else {
            0 - magnitude as i128
        };
        let pnl_percentage = if initial == 0 {
            None
        } else {
            if magnitude > U128_MAX / 10000 {
                return Err(AppError::OutOfRange);
            }
            let scaled = magnitude * 10000 / initial;
            if scaled > I128_MAX as u128 {
                return Err(AppError::OutOfRange);
            }
            if positive {
                Some(scaled as i128)
            } else {
                Some(0 - scaled as i128)
            }
        };
        Ok(
            TradingStatsResponse {
                total_trades: self.orders.len() as u64,
                total_pnl: pnl,
                pnl_percentage,
                current_balance: self.balance,
            },
        )
    }

    /// Fills a market order at `price`: a buy debits the cost and grows
    /// (or opens) the position at volume-weighted average cost; a sell
    /// credits the proceeds, realises profit against the entry price, and
    /// closes the position when nothing is left. Every fill is logged.
    /// A refused order changes nothing.
    pub fn place_order(
        &mut self,
        symbol: &String,
        side: OrderSide,
        quantity: u64,
        price: u64,
        now: i64,
    ) -> (r: Result<Order, AppError>)
        requires
            old(self).wf(),
        ensures
            final(self).wf(),
            final(self).owner() == old(self).owner(),
            final(self).funding() == old(self).funding(),
            match order_outcome(old(self).book(), symbol@, side, quantity as int, price as int) {
                Err(e) => r == Err::<Order, AppError>(e) && *final(self) == *old(self),
                Ok(b) => r is Ok && final(self).book() == b,
            },
            r matches Ok(o) ==> fill_recorded(
                *old(self),
                *final(self),
                *symbol,
                side,
                quantity,
                price,
                now,
                o,
            ),
    {
        if quantity == 0 {
            return Err(AppError::OutOfRange);
        }
        let found = self.find_position(symbol);
        let order_id = self.orders.len() as u64;
        proof {
            if let Some(i) = found {
                assert forall|j: int| 0 <= j < self.positions.len() && (
                #[trigger] self.positions@[j]).symbol@ == symbol@ implies j == i by {
                    if j != i {
                        assert((position_symbol())(self.positions@[j]) != (position_symbol())(
                            self.positions@[i as int],
                        ));
                    }
                }
            } else {
                assert forall|j: int| 0 <= j < self.positions.len() implies (
                #[trigger] self.positions@[j]).symbol@ != symbol@ by {
                    if self.positions@[j].symbol@ == symbol@ {
                        lemma_holdings_at(self.positions@, j);
                    }
                }
            }
        }
        proof {
            lemma_product_fits(price as int, quantity as int);
        }
        let amount = price as u128 * quantity as u128;
        let ghost ps = self.positions@;
        let ghost book = self.book();
        proof {
            assert(amount == quantity * price) by (nonlinear_arith)
                requires
                    amount == price as int * quantity as int,
            ;
            assert(quantity * price <= quantity * U64_MAX) by (nonlinear_arith)
                requires
                    price <= U64_MAX,
            ;
        }
        let position_id: u64;
        match side {
            OrderSide::Buy => {
                if amount > self.balance as u128 {
                    return Err(AppError::InsufficientBalance);
                }
                match found {
                    Some(i) => {
                        let held = self.positions[i].quantity;
                        if held as u128 + quantity as u128 > U64_MAX as u128 {
                            return Err(AppError::OutOfRange);
                        }
                        let new_quantity = held + quantity;
                        let old_cost = self.positions[i].cost_basis;
                        proof {
                            assert(ps[i as int].wf());
                            assert(old_cost + amount <= new_quantity * U64_MAX) by (nonlinear_arith)
                                requires
                                    old_cost <= held * U64_MAX,
                                    amount <= quantity * U64_MAX,
                                    new_quantity == held + quantity,
                            ;
                            assert(new_quantity * U64_MAX <= 0xffff_ffff_ffff_ffff_ffff_ffff_ffff_ffffint)
                                by (nonlinear_arith)
                                requires
                                    new_quantity <= U64_MAX,
                            ;
                            lemma_mean_bounded(old_cost + amount, new_quantity as int);
                        }
                        let new_cost = old_cost + amount;
                        let updated = Position {
                            id: self.positions[i].id,
                            symbol: self.positions[i].symbol.clone(),
                            quantity: new_quantity,
                            entry_price: (new_cost / new_quantity as u128) as u64,
                            cost_basis: new_cost,
                            current_price: price,
                            unrealized_pnl: self.positions[i].unrealized_pnl,
                            realized_pnl: self.positions[i].realized_pnl,
                            side: self.positions[i].side,
                            opened_at: self.positions[i].opened_at,
                            updated_at: now,
                        };
                        position_id = updated.id;
                        let ghost written = updated;
                        self.balance = self.balance - amount as u64;
                        self.positions[i] = updated;
                        proof {
                            assert(self.positions@ == ps.update(i as int, written));
                            lemma_holdings_update(ps, i as int, written);
                            assert(written == bought_position(ps[i as int], quantity, price, now));
                        }
                    },
                    None => {
                        proof {
                            lemma_mean_bounded(amount as int, quantity as int);
                            assert((quantity * price) / (quantity as int) == price as int) by {
                                vstd::arithmetic::div_mod::lemma_div_by_multiple(
                                    price as int,
                                    quantity as int,
                                );
                                assert(quantity * price == price * quantity) by (nonlinear_arith);
                            }
                        }
                        let opened = Position {
                            id: order_id,
                            symbol: symbol.clone(),
                            quantity: quantity,
                            entry_price: price,
                            cost_basis: amount,
                            current_price: price,
                            unrealized_pnl: 0,
                            realized_pnl: 0,
                            side: OrderSide::Buy,
                            opened_at: now,
                            updated_at: now,
                        };
                        position_id = order_id;
                        let ghost written = opened;
                        self.balance = self.balance - amount as u64;
                        self.positions.push(opened);
                        proof {
                            lemma_holdings_push(ps, written);
                            assert(written == opened_position(order_id, *symbol, quantity, price, now));
                        }
                    },
                }
            },
            OrderSide::Sell => {
                let i = match found {
                    None => {
                        return Err(AppError::NoPosition);
                    },
                    Some(i) => i,
                };
                let held = self.positions[i].quantity;
                if held < quantity {
                    return Err(AppError::InsufficientQuantity);
                }
                if self.balance as u128 + amount > U64_MAX as u128 {
                    return Err(AppError::OutOfRange);
                }
                position_id = self.positions[i].id;
                proof {
                    assert(ps[i as int].wf());
                }
                if held == quantity {
                    self.positions.remove(i);
                    self.balance = (self.balance as u128 + amount) as u64;
                    proof {
                        lemma_holdings_remove(ps, i as int);
                    }
                } else {
                    let entry = self.positions[i].entry_price;
                    let realized = self.positions[i].realized_pnl;
                    let ghost h = ps[i as int].holding();
                    let delta: i128;
                    if price >= entry {
                        proof {
                            lemma_product_fits((price - entry) as int, quantity as int);
                        }
                        let magnitude = (price - entry) as u128 * quantity as u128;
                        proof {
                            assert(magnitude == (price - entry) * quantity) by (nonlinear_arith)
                                requires
                                    magnitude == (price - entry) as int * quantity as int,
                            ;
                        }
                        if magnitude > I128_MAX as u128 {
                            return Err(AppError::OutOfRange);
                        }
                        delta = magnitude as i128;
                    } else {
                        proof {
                            lemma_product_fits((entry - price) as int, quantity as int);
                        }
                        let magnitude = (entry - price) as u128 * quantity as u128;
                        proof {
                            assert(magnitude == (entry - price) * quantity) by (nonlinear_arith)
                                requires
                                    magnitude == (entry - price) as int * quantity as int,
                            ;
                            assert(-(magnitude as int) == (price - entry) * quantity) by (nonlinear_arith)
                                requires
                                    magnitude == (entry - price) * quantity,
                            ;
                        }
                        if magnitude > I128_MAX as u128 {
                            return Err(AppError::OutOfRange);
                        }
                        delta = 0 - magnitude as i128;
                    }
                    let new_realized = match realized.checked_add(delta) {
                        None => {
                            return Err(AppError::OutOfRange);
                        },
                        Some(v) => v,
                    };
                    let new_quantity = held - quantity;
                    proof {
                        assert(entry * new_quantity <= new_quantity * U64_MAX) by (nonlinear_arith)
                            requires
                                entry <= U64_MAX,
                                new_quantity >= 0,
                        ;
                        assert(new_quantity * U64_MAX <= 0xffff_ffff_ffff_ffff_ffff_ffff_ffff_ffffint)
                            by (nonlinear_arith)
                            requires
                                new_quantity <= U64_MAX,
                        ;
                        assert((entry * new_quantity) / (new_quantity as int) == entry as int) by {
                            vstd::arithmetic::div_mod::lemma_div_by_multiple(
                                entry as int,
                                new_quantity as int,
                            );
                        }
                    }
                    let new_cost = entry as u128 * new_quantity as u128;
                    let updated = Position {
                        id: self.positions[i].id,
                        symbol: self.positions[i].symbol.clone(),
                        quantity: new_quantity,
                        entry_price: entry,
                        cost_basis: new_cost,
                        current_price: price,
                        unrealized_pnl: self.positions[i].unrealized_pnl,
                        realized_pnl: new_realized,
                        side: self.positions[i].side,
                        opened_at: self.positions[i].opened_at,
                        updated_at: now,
                    };
                    let ghost written = updated;
                    self.balance = (self.balance as u128 + amount) as u64;
                    self.positions[i] = updated;
                    proof {
                        assert(self.positions@ == ps.update(i as int, written));
                        lemma_holdings_update(ps, i as int, written);
                        assert(written.holding() == after_sell(h, quantity as int, price as int));
                        assert(written == sold_position(ps[i as int], quantity, price, now));
                    }
                }
            },
        }
        let order = Order {
            id: order_id,
            symbol: symbol.clone(),
            order_type: OrderType::Market,
            side,
            quantity,
            price,
            status: OrderStatus::Filled,
            position_id: Some(position_id),
            created_at: now,
            filled_at: now,
        };
        let copy = order.duplicate();
        self.orders.push(order);
        Ok(copy)
    }
}

// ---------------------------------------------------------------------------
// Laws of the accounting model

/// Cash is never negative and every holding holds something.
pub open spec fn book_wf(book: Book) -> bool {
    &&& book.balance >= 0
    &&& forall|s: Seq<char>| #[trigger]
        book.holdings.contains_key(s) ==> book.holdings[s].quantity > 0
            && book.holdings[s].cost_basis >= 0
}

/// Cash that an accepted order adds to the balance (negative for a buy).
pub open spec fn cash_effect(side: OrderSide, quantity: int, price: int) -> int {
    match side {
        OrderSide::Buy => -(quantity * price),
        OrderSide::Sell => quantity * price,
    }
}

/// The book after a series of buys of one symbol, each `(quantity, price)`.
pub open spec fn after_buys(book: Book, symbol: Seq<char>, buys: Seq<(int, int)>) -> Result<Book, AppError>
    decreases buys.len(),
{
    if buys.len() == 0 {
        Ok(book)
    } else {
        match after_buys(book, symbol, buys.drop_last()) {
            Err(e) => Err(e),
            Ok(b) => order_outcome(b, symbol, OrderSide::Buy, buys.last().0, buys.last().1),
        }
    }
}

pub open spec fn total_quantity(buys: Seq<(int, int)>) -> int
    decreases buys.len(),
{
    if buys.len() == 0 {
        0
    } else {
        total_quantity(buys.drop_last()) + buys.last().0
    }
}

pub open spec fn total_cost(buys: Seq<(int, int)>) -> int
    decreases buys.len(),
{
    if buys.len() == 0 {
        0
    } else {
        total_cost(buys.drop_last()) + buys.last().0 * buys.last().1
    }
}

/// Buying into a symbol with no open position, by any series of accepted
/// buys, leaves a holding whose quantity is the total bought, whose cost is
/// the total paid, and whose entry price is their quotient.
pub proof fn lemma_average_cost_of_buys(book: Book, symbol: Seq<char>, buys: Seq<(int, int)>)
    requires
        !book.holdings.contains_key(symbol),
        buys.len() > 0,
        after_buys(book, symbol, buys) is Ok,
    ensures
        ({
            let h = after_buys(book, symbol, buys)->Ok_0.holdings[symbol];
            &&& after_buys(book, symbol, buys)->Ok_0.holdings.contains_key(symbol)
            &&& h.quantity == total_quantity(buys)
            &&& h.cost_basis == total_cost(buys)
            &&& h.realized_pnl == 0
            &&& entry_price_of(h) == total_cost(buys) / total_quantity(buys)
        }),
    decreases buys.len(),
{
    let rest = buys.drop_last();
    let (q, p) = buys.last();
    if rest.len() > 0 {
        lemma_average_cost_of_buys(book, symbol, rest);
    } else {
        assert(after_buys(book, symbol, rest) == Ok::<Book, AppError>(book));
    }
    let b = after_buys(book, symbol, rest)->Ok_0;
    assert(after_buys(book, symbol, buys) == order_outcome(b, symbol, OrderSide::Buy, q, p));
    let held = holding_in(b, symbol);
    assert(after_buys(book, symbol, buys)->Ok_0.holdings == b.holdings.insert(
        symbol,
        after_buy(held, q, p),
    ));
    assert(total_quantity(buys) == total_quantity(rest) + q);
    assert(total_cost(buys) == total_cost(rest) + q * p);
}

/// Selling the whole of a position closes it; selling part of it leaves the
/// rest at the same entry price and adds `(price - entry) * quantity` to its
/// realised profit. Excluded are the sales whose proceeds or profit do not
/// fit the ledger's integers.
pub proof fn lemma_sell_outcome(book: Book, symbol: Seq<char>, quantity: int, price: int)
    requires
        book_wf(book),
        book.holdings.contains_key(symbol),
        0 <= quantity <= book.holdings[symbol].quantity,
        quantity < book.holdings[symbol].quantity ==> quantity > 0,
        book.balance + quantity * price <= U64_MAX,
        quantity < book.holdings[symbol].quantity ==> {
            let h = book.holdings[symbol];
            &&& -(I128_MAX as int) <= sale_pnl(h, quantity, price) <= I128_MAX
            &&& fits_i128(h.realized_pnl + sale_pnl(h, quantity, price))
        },
    ensures
        ({
            let h = book.holdings[symbol];
            let r = order_outcome(book, symbol, OrderSide::Sell, quantity, price);
            &&& r is Ok
            &&& r->Ok_0.balance == book.balance + quantity * price
            &&& quantity == h.quantity ==> !r->Ok_0.holdings.contains_key(symbol)
            &&& quantity < h.quantity ==> {
                &&& r->Ok_0.holdings.contains_key(symbol)
                &&& r->Ok_0.holdings[symbol].quantity == h.quantity - quantity
                &&& r->Ok_0.holdings[symbol].realized_pnl == h.realized_pnl + (price
                    - entry_price_of(h)) * quantity
            }
        }),
{
}

/// A buy that costs more than the cash balance is refused as such, and the
/// account it is placed on stays as it was (see `PaperAccount::place_order`).
pub proof fn lemma_buy_beyond_balance(book: Book, symbol: Seq<char>, quantity: int, price: int)
    requires
        book_wf(book),
        quantity * price > book.balance,
    ensures
        order_outcome(book, symbol, OrderSide::Buy, quantity, price) == Err::<Book, AppError>(
            AppError::InsufficientBalance,
        ),
{
    if quantity == 0 {
        assert(quantity * price == 0);
    }
}

/// Two orders applied one after the other leave the cash balance changed by
/// the sum of their separate effects: no update is lost.
pub proof fn lemma_orders_compose(
    book: Book,
    first: (Seq<char>, OrderSide, int, int),
    second: (Seq<char>, OrderSide, int, int),
)
    requires
        order_outcome(book, first.0, first.1, first.2, first.3) is Ok,
        order_outcome(
            order_outcome(book, first.0, first.1, first.2, first.3)->Ok_0,
            second.0,
            second.1,
            second.2,
            second.3,
        ) is Ok,
    ensures
        order_outcome(
            order_outcome(book, first.0, first.1, first.2, first.3)->Ok_0,
            second.0,
            second.1,
            second.2,
            second.3,
        )->Ok_0.balance == book.balance + cash_effect(first.1, first.2, first.3) + cash_effect(
            second.1,
            second.2,
            second.3,
        ),
{
}

proof fn lemma_product_fits(a: int, b: int)
    requires
        0 <= a <= U64_MAX,
        0 <= b <= U64_MAX,
    ensures
        0 <= a * b <= 0xffff_ffff_ffff_fffe_0000_0000_0000_0001int,
{
    assert(0 <= a * b <= U64_MAX * U64_MAX) by (nonlinear_arith)
        requires
            0 <= a <= U64_MAX,
            0 <= b <= U64_MAX,
    ;
}

proof fn lemma_mean_bounded(total: int, count: int)
    requires
        count > 0,
        0 <= total <= count * U64_MAX,
    ensures
        0 <= total / count <= U64_MAX,
{
    let q = total / count;
    vstd::arithmetic::div_mod::lemma_fundamental_div_mod(total, count);
    vstd::arithmetic::div_mod::lemma_mod_bound(total, count);
    assert(0 <= q <= U64_MAX) by (nonlinear_arith)
        requires
            total == count * q + total % count,
            0 <= total % count < count,
            0 <= total <= count * U64_MAX,
            count > 0,
    ;
}

} // verus!
