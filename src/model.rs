use vstd::prelude::*;

verus! {

/// The technical rule that a strategy trades on.
#[derive(Clone, Copy, Debug, PartialEq, Eq, Structural)]
pub enum StrategyType {
    MovingAverageCrossover,
    RSIStrategy,
    MACDStrategy,
}

/// Whether a strategy receives market data and signal evaluations.
#[derive(Clone, Copy, Debug, PartialEq, Eq, Structural)]
pub enum StrategyStatus {
    Active,
    Paused,
    Stopped,
}

impl StrategyStatus {
    /// True exactly for `Active`.
    pub fn is_active(&self) -> (r: bool)
        ensures
            r == (*self == StrategyStatus::Active),
    {
        match self {
            StrategyStatus::Active => true,
            _ => false,
        }
    }
}

} // verus!

verus! {

/// How an order is executed; market orders fill at once.
#[derive(Clone, Copy, Debug, PartialEq, Eq, Structural)]
pub enum OrderType {
    Market,
}

#[derive(Clone, Copy, Debug, PartialEq, Eq, Structural)]
pub enum OrderSide {
    Buy,
    Sell,
}

/// Simulated orders are always filled.
#[derive(Clone, Copy, Debug, PartialEq, Eq, Structural)]
pub enum OrderStatus {
    Filled,
}

} // verus!

verus! {

/// Risk limits of a strategy. Percentages are in hundredths of a percent.
#[derive(Clone, Copy, Debug, PartialEq, Eq, Structural)]
pub struct RiskParameters {
    /// The most money that one order may commit.
    pub max_position_size: u64,
    pub max_total_positions: u32,
    pub stop_loss_percentage: u32,
    pub take_profit_percentage: u32,
    pub max_daily_loss: u64,
    pub trailing_stop_enabled: bool,
    pub trailing_stop_percentage: u32,
}

/// Strategy parameters as they arrive, any of them possibly absent.
#[derive(Clone, Copy, Debug, Default, PartialEq, Eq, Structural)]
pub struct RawParameters {
    pub fast_ma_period: Option<usize>,
    pub slow_ma_period: Option<usize>,
    pub rsi_period: Option<usize>,
    pub oversold_threshold: Option<u64>,
    pub overbought_threshold: Option<u64>,
    pub fast_period: Option<usize>,
    pub slow_period: Option<usize>,
    pub signal_period: Option<usize>,
}

pub const DEFAULT_FAST_MA_PERIOD: usize = 9;

pub const DEFAULT_SLOW_MA_PERIOD: usize = 21;

pub const DEFAULT_RSI_PERIOD: usize = 14;

pub const DEFAULT_OVERSOLD_THRESHOLD: u64 = 30;

pub const DEFAULT_OVERBOUGHT_THRESHOLD: u64 = 70;

pub const DEFAULT_MACD_FAST_PERIOD: usize = 12;

pub const DEFAULT_MACD_SLOW_PERIOD: usize = 26;

pub const DEFAULT_MACD_SIGNAL_PERIOD: usize = 9;

/// Strategy parameters with every default filled in.
#[derive(Clone, Copy, Debug, PartialEq, Eq, Structural)]
pub struct StrategyParameters {
    pub fast_ma_period: usize,
    pub slow_ma_period: usize,
    pub rsi_period: usize,
    pub oversold_threshold: u64,
    pub overbought_threshold: u64,
    pub fast_period: usize,
    pub slow_period: usize,
    pub signal_period: usize,
}

pub open spec fn or_default<T>(v: Option<T>, d: T) -> T {
    match v {
        Some(x) => x,
        None => d,
    }
}

/// Each parameter that is present, and the default for each one that is not.
pub open spec fn parameters_from(raw: RawParameters) -> StrategyParameters {
    StrategyParameters {
        fast_ma_period: or_default(raw.fast_ma_period, DEFAULT_FAST_MA_PERIOD),
        slow_ma_period: or_default(raw.slow_ma_period, DEFAULT_SLOW_MA_PERIOD),
        rsi_period: or_default(raw.rsi_period, DEFAULT_RSI_PERIOD),
        oversold_threshold: or_default(raw.oversold_threshold, DEFAULT_OVERSOLD_THRESHOLD),
        overbought_threshold: or_default(raw.overbought_threshold, DEFAULT_OVERBOUGHT_THRESHOLD),
        fast_period: or_default(raw.fast_period, DEFAULT_MACD_FAST_PERIOD),
        slow_period: or_default(raw.slow_period, DEFAULT_MACD_SLOW_PERIOD),
        signal_period: or_default(raw.signal_period, DEFAULT_MACD_SIGNAL_PERIOD),
    }
}

impl StrategyParameters {
    /// Takes each parameter that is present and the default for each one that is not.
    pub fn from_raw(raw: &RawParameters) -> (r: StrategyParameters)
        ensures
            r == parameters_from(*raw),
            r.fast_ma_period == or_default(raw.fast_ma_period, DEFAULT_FAST_MA_PERIOD),
            r.slow_ma_period == or_default(raw.slow_ma_period, DEFAULT_SLOW_MA_PERIOD),
            r.rsi_period == or_default(raw.rsi_period, DEFAULT_RSI_PERIOD),
            r.oversold_threshold == or_default(raw.oversold_threshold, DEFAULT_OVERSOLD_THRESHOLD),
            r.overbought_threshold == or_default(
                raw.overbought_threshold,
                DEFAULT_OVERBOUGHT_THRESHOLD,
            ),
            r.fast_period == or_default(raw.fast_period, DEFAULT_MACD_FAST_PERIOD),
            r.slow_period == or_default(raw.slow_period, DEFAULT_MACD_SLOW_PERIOD),
            r.signal_period == or_default(raw.signal_period, DEFAULT_MACD_SIGNAL_PERIOD),
    {
        StrategyParameters {
            fast_ma_period: pick(raw.fast_ma_period, DEFAULT_FAST_MA_PERIOD),
            slow_ma_period: pick(raw.slow_ma_period, DEFAULT_SLOW_MA_PERIOD),
            rsi_period: pick(raw.rsi_period, DEFAULT_RSI_PERIOD),
            oversold_threshold: pick(raw.oversold_threshold, DEFAULT_OVERSOLD_THRESHOLD),
            overbought_threshold: pick(raw.overbought_threshold, DEFAULT_OVERBOUGHT_THRESHOLD),
            fast_period: pick(raw.fast_period, DEFAULT_MACD_FAST_PERIOD),
            slow_period: pick(raw.slow_period, DEFAULT_MACD_SLOW_PERIOD),
            signal_period: pick(raw.signal_period, DEFAULT_MACD_SIGNAL_PERIOD),
        }
    }
}

fn pick<T: Copy>(v: Option<T>, d: T) -> (r: T)
    ensures
        r == or_default(v, d),
{
    match v {
        Some(x) => x,
        None => d,
    }
}

/// A trading strategy. Times are milliseconds since the Unix epoch.
#[derive(Debug)]
pub struct Strategy {
    pub id: u64,
    pub user_id: String,
    pub name: String,
    pub description: String,
    pub strategy_type: StrategyType,
    pub status: StrategyStatus,
    /// The symbols traded; a repeated symbol counts once.
    pub symbols: Vec<String>,
    pub parameters: StrategyParameters,
    pub risk_parameters: RiskParameters,
    pub created_at: i64,
    pub updated_at: i64,
    pub last_executed_at: Option<i64>,
}

/// The text of each string, in order.
pub open spec fn texts(v: Seq<String>) -> Seq<Seq<char>> {
    v.map_values(|s: String| s@)
}

/// Whether `t` is among the strings.
pub open spec fn listed(v: Seq<String>, t: Seq<char>) -> bool {
    exists|i: int| 0 <= i < v.len() && #[trigger] v[i]@ == t
}

/// A copy of a list of strings.
pub fn copy_strings(v: &Vec<String>) -> (r: Vec<String>)
    ensures
        r@ == v@,
{
    let mut r: Vec<String> = Vec::new();
    let mut i: usize = 0;
    while i < v.len()
        invariant
            i <= v.len(),
            r@ == v@.take(i as int),
        decreases v.len() - i,
    {
        r.push(v[i].clone());
        proof {
            assert(v@.take(i as int + 1) =~= v@.take(i as int).push(v[i as int]));
        }
        i = i + 1;
    }
    assert(v@.take(v.len() as int) =~= v@);
    r
}

impl Strategy {
    /// Equal field for field, the symbols as lists.
    pub open spec fn same_as(&self, other: &Strategy) -> bool {
        &&& self.id == other.id
        &&& self.user_id == other.user_id
        &&& self.name == other.name
        &&& self.description == other.description
        &&& self.strategy_type == other.strategy_type
        &&& self.status == other.status
        &&& self.symbols@ == other.symbols@
        &&& self.parameters == other.parameters
        &&& self.risk_parameters == other.risk_parameters
        &&& self.created_at == other.created_at
        &&& self.updated_at == other.updated_at
        &&& self.last_executed_at == other.last_executed_at
    }

    /// A field-for-field copy.
    pub fn duplicate(&self) -> (r: Strategy)
        ensures
            r.same_as(self),
    {
        Strategy {
            id: self.id,
            user_id: self.user_id.clone(),
            name: self.name.clone(),
            description: self.description.clone(),
            strategy_type: self.strategy_type,
            status: self.status,
            symbols: copy_strings(&self.symbols),
            parameters: self.parameters,
            risk_parameters: self.risk_parameters,
            created_at: self.created_at,
            updated_at: self.updated_at,
            last_executed_at: self.last_executed_at,
        }
    }
}

} // verus!
