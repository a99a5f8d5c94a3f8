//! Settings read at start-up: the deployment environment and token lifetimes
//! written as a number and a unit (`90s`, `60m`, `12h`, `7d`).

use vstd::prelude::*;

use crate::error::AppError;

verus! {

#[derive(Clone, Copy, Debug, PartialEq, Eq, Structural)]
pub enum AppEnv {
    Development,
    Production,
    Test,
}

/// The environment a lower-case name selects; any unknown name is development.
pub open spec fn env_named(name: Seq<char>) -> AppEnv {
    if name == "production"@ {
        AppEnv::Production
    } else if name == "test"@ {
        AppEnv::Test
    } else {
        AppEnv::Development
    }
}

/// What `str::to_lowercase` makes of a text.
pub uninterp spec fn lowercase_of(s: Seq<char>) -> Seq<char>;

/// Relies on `str::to_lowercase`: the result depends on the characters alone.
#[verifier::external_body]
fn lowercase(s: &str) -> (r: String)
    ensures
        r@ == lowercase_of(s@),
{
    s.to_lowercase()
}

/// A character with the Unicode `White_Space` property.
pub open spec fn is_white_space(c: char) -> bool {
    ('\u{9}' <= c && c <= '\u{d}') || c == ' ' || c == '\u{85}' || c == '\u{a0}' || c == '\u{1680}'
        || ('\u{2000}' <= c && c <= '\u{200a}') || c == '\u{2028}' || c == '\u{2029}' || c
        == '\u{202f}' || c == '\u{205f}' || c == '\u{3000}'
}

/// A text without its leading white space.
pub open spec fn trim_start_of(s: Seq<char>) -> Seq<char>
    decreases s.len(),
{
    if s.len() > 0 && is_white_space(s[0]) {
        trim_start_of(s.drop_first())
    } else {
        s
    }
}

/// A text without its trailing white space.
pub open spec fn trim_end_of(s: Seq<char>) -> Seq<char>
    decreases s.len(),
{
    if s.len() > 0 && is_white_space(s.last()) {
        trim_end_of(s.drop_last())
    } else {
        s
    }
}

/// A text without its leading and trailing white space.
pub open spec fn trimmed_of(s: Seq<char>) -> Seq<char> {
    trim_end_of(trim_start_of(s))
}

proof fn lemma_trim_start(s: Seq<char>, a: int)
    requires
        0 <= a <= s.len(),
        forall|k: int| 0 <= k < a ==> is_white_space(#[trigger] s[k]),
        a == s.len() || !is_white_space(s[a]),
    ensures
        trim_start_of(s) == s.skip(a),
    decreases a,
{
    if a == 0 {
        assert(s.skip(0) =~= s);
    } else {
        let t = s.drop_first();
        assert forall|k: int| 0 <= k < a - 1 implies is_white_space(#[trigger] t[k]) by {
            assert(t[k] == s[k + 1]);
        }
        lemma_trim_start(t, a - 1);
        assert(t.skip(a - 1) =~= s.skip(a));
    }
}

proof fn lemma_trim_end(t: Seq<char>, m: int)
    requires
        0 <= m <= t.len(),
        forall|k: int| m <= k < t.len() ==> is_white_space(#[trigger] t[k]),
        m == 0 || !is_white_space(t[m - 1]),
    ensures
        trim_end_of(t) == t.take(m),
    decreases t.len() - m,
{
    if m == t.len() {
        assert(t.take(m) =~= t);
    } else {
        let u = t.drop_last();
        assert(is_white_space(t[t.len() - 1]));
        assert forall|k: int| m <= k < u.len() implies is_white_space(#[trigger] u[k]) by {
            assert(u[k] == t[k]);
        }
        lemma_trim_end(u, m);
        assert(u.take(m) =~= t.take(m));
    }
}

fn white_space(c: char) -> (r: bool)
    ensures
        r == is_white_space(c),
{
    ('\u{9}' <= c && c <= '\u{d}') || c == ' ' || c == '\u{85}' || c == '\u{a0}' || c == '\u{1680}'
        || ('\u{2000}' <= c && c <= '\u{200a}') || c == '\u{2028}' || c == '\u{2029}' || c
        == '\u{202f}' || c == '\u{205f}' || c == '\u{3000}'
}

/// `s` without its leading and trailing white space, as `str::trim` gives it.
fn trim(s: &str) -> (r: &str)
    ensures
        r@ == trimmed_of(s@),
{
    let n = s.unicode_len();
    let mut a: usize = 0;
    while a < n && white_space(s.get_char(a))
        invariant
            a <= n == s@.len(),
            forall|k: int| 0 <= k < a ==> is_white_space(#[trigger] s@[k]),
        decreases n - a,
    {
        a = a + 1;
    }
    proof {
        lemma_trim_start(s@, a as int);
    }
    let ghost t = s@.skip(a as int);
    let mut b: usize = n;
    while b > a && white_space(s.get_char(b - 1))
        invariant
            a <= b <= n == s@.len(),
            t == s@.skip(a as int),
            forall|k: int| b <= k < n ==> is_white_space(#[trigger] s@[k]),
        decreases b - a,
    {
        b = b - 1;
    }
    proof {
        assert forall|k: int| b - a <= k < t.len() implies is_white_space(#[trigger] t[k]) by {
            assert(t[k] == s@[k + a]);
        }
        if b > a {
            assert(t[b - a - 1] == s@[b - 1]);
        }
        lemma_trim_end(t, (b - a) as int);
        assert(t.take((b - a) as int) =~= s@.subrange(a as int, b as int));
    }
    s.substring_char(a, b)
}

impl AppEnv {
    /// The environment of a name already in lower case.
    pub fn from_lowercase_name(name: &str) -> (r: AppEnv)
        ensures
            r == env_named(name@),
    {
        let name = name.to_string();
        let production = "production".to_string();
        let test = "test".to_string();
        proof {
            reveal_strlit("production");
            reveal_strlit("test");
        }
        if name == production {
            AppEnv::Production
        } else if name == test {
            AppEnv::Test
        } else {
            AppEnv::Development
        }
    }

    /// The environment of a name in any case.
    pub fn from_name(name: &str) -> (r: AppEnv)
        ensures
            r == env_named(lowercase_of(name@)),
    {
        let lower = lowercase(name);
        AppEnv::from_lowercase_name(lower.as_str())
    }
}

/// The longest lifetime accepted, in seconds (the bound of a chrono duration).
pub const MAX_DURATION_SECONDS: i64 = 9_223_372_036_854_775;

pub open spec fn is_digit(c: char) -> bool {
    '0' <= c && c <= '9'
}

/// The number of leading decimal digits.
pub open spec fn leading_digits(s: Seq<char>) -> nat
    decreases s.len(),
{
    if s.len() == 0 || !is_digit(s[0]) {
        0
    } else {
        1 + leading_digits(s.drop_first())
    }
}

/// The value of a string of decimal digits.
pub open spec fn digits_value(s: Seq<char>) -> int
    decreases s.len(),
{
    if s.len() == 0 {
        0
    } else {
        digits_value(s.drop_last()) * 10 + (s.last() as int - '0' as int)
    }
}

/// Seconds per unit: `s`, `m`, `h` or `d`.
pub open spec fn unit_seconds(unit: Seq<char>) -> int {
    if unit == seq!['s'] {
        1
    } else if unit == seq!['m'] {
        60
    } else if unit == seq!['h'] {
        3600
    } else if unit == seq!['d'] {
        86400
    } else {
        0
    }
}

/// The lifetime a trimmed text gives, in seconds, if it is well formed.
pub open spec fn duration_seconds(s: Seq<char>) -> Option<int> {
    let n = leading_digits(s) as int;
    let value = digits_value(s.take(n));
    let unit = unit_seconds(s.skip(n));
    if n == 0 || value > i64::MAX || unit == 0 || value * unit > MAX_DURATION_SECONDS {
        None
    } else {
        Some(value * unit)
    }
}

proof fn lemma_leading_digits(s: Seq<char>, i: int)
    requires
        0 <= i <= s.len(),
        forall|k: int| 0 <= k < i ==> is_digit(#[trigger] s[k]),
        i == s.len() || !is_digit(s[i]),
    ensures
        leading_digits(s) == i,
    decreases i,
{
    if i > 0 {
        lemma_leading_digits(s.drop_first(), i - 1);
    }
}

proof fn lemma_digits_grow(s: Seq<char>, k: int)
    requires
        0 <= k <= s.len(),
        forall|j: int| 0 <= j < s.len() ==> is_digit(#[trigger] s[j]),
    ensures
        0 <= digits_value(s.take(k)) <= digits_value(s),
    decreases s.len() - k,
{
    if k < s.len() {
        lemma_digits_grow(s, k + 1);
        assert(s.take(k + 1).drop_last() =~= s.take(k));
        assert(is_digit(s[k]));
    } else {
        assert(s.take(k) =~= s);
        lemma_digits_nonnegative(s);
    }
}

proof fn lemma_digits_nonnegative(s: Seq<char>)
    requires
        forall|j: int| 0 <= j < s.len() ==> is_digit(#[trigger] s[j]),
    ensures
        0 <= digits_value(s),
    decreases s.len(),
{
    if s.len() > 0 {
        lemma_digits_nonnegative(s.drop_last());
        assert(is_digit(s[s.len() - 1]));
    }
}

/// The lifetime in seconds of a text that has no surrounding white space.
pub fn parse_trimmed_duration(text: &str) -> (r: Result<i64, AppError>)
    ensures
        duration_seconds(text@) matches Some(v) ==> r == Ok::<i64, AppError>(v as i64),
        duration_seconds(text@) is None ==> (r matches Err(e) && e is ConfigError),
{
    let ghost s = text@;
    let len = text.unicode_len();
    let mut n: usize = 0;
    while n < len && is_ascii_digit(text.get_char(n))
        invariant
            n <= len == s.len(),
            s == text@,
            forall|k: int| 0 <= k < n ==> is_digit(#[trigger] s[k]),
        decreases len - n,
    {
        n = n + 1;
    }
    proof {
        lemma_leading_digits(s, n as int);
    }
    if n == 0 {
        return Err(AppError::ConfigError("Invalid number".to_string()));
    }
    let ghost digits = s.take(n as int);
    let mut value: u64 = 0;
    let mut i: usize = 0;
    while i < n
        invariant
            i <= n <= len == s.len(),
            s == text@,
            digits == s.take(n as int),
            leading_digits(s) == n,
            forall|k: int| 0 <= k < n ==> is_digit(#[trigger] s[k]),
            value == digits_value(digits.take(i as int)),
            value <= i64::MAX,
        decreases n - i,
    {
        let c = text.get_char(i);
        let d = (c as u32 - '0' as u32) as u64;
        proof {
            assert(c == s[i as int]);
            assert(digits[i as int] == c);
            assert(d == c as int - '0' as int);
            assert(digits.take(i as int + 1).drop_last() =~= digits.take(i as int));
            assert(digits.take(i as int + 1).last() == c);
            assert(is_digit(s[i as int]));
        }
        if value > (i64::MAX as u64 - d) / 10 {
            proof {
                assert forall|j: int| 0 <= j < digits.len() implies is_digit(#[trigger] digits[j]) by {
                    assert(digits[j] == s[j]);
                }
                lemma_digits_grow(digits, i as int + 1);
                assert(digits_value(digits.take(i as int + 1)) == value * 10 + d);
                assert(digits_value(digits) > i64::MAX);
                assert(value * 10 + d > i64::MAX) by (nonlinear_arith)
                    requires
                        value > (i64::MAX - d) / 10,
                        0 <= d <= 9,
                ;
                assert(digits.take(n as int) =~= digits);
            }
            return Err(AppError::ConfigError("Invalid number".to_string()));
        }
        value = value * 10 + d;
        i = i + 1;
    }
    proof {
        assert(digits.take(n as int) =~= digits);
    }
    let unit = if len - n == 1 {
        let c = text.get_char(n);
        proof {
            assert(s.skip(n as int) =~= seq![c]);
            assert(seq![c][0] == c);
            assert(seq!['s'][0] == 's' && seq!['m'][0] == 'm' && seq!['h'][0] == 'h' && seq!['d'][0]
                == 'd');
        }
        if c == 's' {
            1u64
        } else if c == 'm' {
            60
        } else if c == 'h' {
            3600
        } else if c == 'd' {
            86400
        } else {
            0
        }
    } else {
        proof {
            assert(s.skip(n as int).len() != 1);
            assert(seq!['s'].len() == 1 && seq!['m'].len() == 1 && seq!['h'].len() == 1
                && seq!['d'].len() == 1);
        }
        0
    };
    proof {
        assert(unit_seconds(s.skip(n as int)) == unit as int);
        assert(digits_value(s.take(n as int)) == value as int);
    }
    if unit == 0 {
        return Err(AppError::ConfigError("Unknown time unit, use s, m, h, or d".to_string()));
    }
    if value > MAX_DURATION_SECONDS as u64 / unit {
        proof {
            assert(value * unit > MAX_DURATION_SECONDS) by (nonlinear_arith)
                requires
                    value > (MAX_DURATION_SECONDS as int) / (unit as int),
                    unit > 0,
            ;
        }
        return Err(AppError::ConfigError("Duration out of range".to_string()));
    }
    proof {
        assert(value * unit <= MAX_DURATION_SECONDS) by (nonlinear_arith)
            requires
                value <= (MAX_DURATION_SECONDS as int) / (unit as int),
                unit > 0,
        ;
    }
    Ok((value * unit) as i64)
}

fn is_ascii_digit(c: char) -> (r: bool)
    ensures
        r == is_digit(c),
{
    '0' <= c && c <= '9'
}

/// The lifetime in seconds of a text such as `60m`, surrounding white space
/// ignored.
pub fn parse_duration(text: &str) -> (r: Result<i64, AppError>)
    ensures
        duration_seconds(trimmed_of(text@)) matches Some(v) ==> r == Ok::<i64, AppError>(v as i64),
        duration_seconds(trimmed_of(text@)) is None ==> (r matches Err(e) && e is ConfigError),
{
    parse_trimmed_duration(trim(text))
}

} // verus!
