use vstd::prelude::*;

use crate::errors::StribotError;
use crate::scan::to_chars;

verus! {

/// 10^18: one degree expressed in `Temp::units`, and the exclusive bound on
/// the integer part a written temperature may have.
pub const UNIT_SCALE: u64 = 1_000_000_000_000_000_000;

/// 10^36: exclusive bound on `Temp::units` of a well-formed temperature.
pub const UNITS_LIMIT: u128 = 1_000_000_000_000_000_000 * 1_000_000_000_000_000_000;

/// Mathematical power of ten.
pub open spec fn pow10(n: nat) -> nat
    decreases n,
{
    if n == 0 {
        1
    } else {
        10 * pow10((n - 1) as nat)
    }
}

pub proof fn lemma_pow10_positive(n: nat)
    ensures
        pow10(n) >= 1,
    decreases n,
{
    if n > 0 {
        lemma_pow10_positive((n - 1) as nat);
    }
}

pub proof fn lemma_pow10_increases(a: nat, b: nat)
    requires
        a <= b,
    ensures
        pow10(a) <= pow10(b),
    decreases b,
{
    if a < b {
        lemma_pow10_increases(a, (b - 1) as nat);
        lemma_pow10_positive((b - 1) as nat);
    }
}

/// The named 10^18 constant agrees with the mathematical power.
pub proof fn lemma_unit_scale()
    ensures
        pow10(18) == UNIT_SCALE,
{
    reveal_with_fuel(pow10, 20);
}

/// An exact temperature value: `units` counts multiples of 10^-18 degrees,
/// `neg` gives the sign. The representation is canonical (zero is never
/// negative), so structural equality coincides with numeric equality.
#[derive(Clone, Copy, Debug, PartialEq, Eq, Structural)]
pub struct Temp {
    pub neg: bool,
    pub units: u128,
}

impl Temp {
    /// Well-formed: in range for a value whose written integer part stays
    /// below 10^18, and canonical about the sign of zero.
    pub open spec fn wf(self) -> bool {
        self.units < UNITS_LIMIT && (self.neg ==> self.units > 0)
    }

    /// The value in units of 10^-18 degrees, as a mathematical integer.
    pub open spec fn ival(self) -> int {
        if self.neg {
            -(self.units as int)
        } else {
            self.units as int
        }
    }
}

/// Numeric order on temperatures.
pub open spec fn temp_le(a: Temp, b: Temp) -> bool {
    a.ival() <= b.ival()
}

/// Strict numeric order on temperatures.
pub open spec fn temp_lt(a: Temp, b: Temp) -> bool {
    a.ival() < b.ival()
}

/// Executable comparison, exact against the numeric order.
pub fn temp_le_exec(a: &Temp, b: &Temp) -> (r: bool)
    ensures
        r == temp_le(*a, *b),
{
    if a.neg && !b.neg {
        true
    } else if !a.neg && b.neg {
        a.units == 0 && b.units == 0
    } else if a.neg {
        b.units <= a.units
    } else {
        a.units <= b.units
    }
}

/// Executable strict comparison, exact against the numeric order.
pub fn temp_lt_exec(a: &Temp, b: &Temp) -> (r: bool)
    ensures
        r == temp_lt(*a, *b),
{
    if a.neg && !b.neg {
        a.units > 0 || b.units > 0
    } else if !a.neg && b.neg {
        false
    } else if a.neg {
        b.units < a.units
    } else {
        a.units < b.units
    }
}

/// A decimal digit character.
pub open spec fn is_digit(c: char) -> bool {
    48 <= c as u32 <= 57
}

/// The value of a decimal digit character.
pub open spec fn digit_val(c: char) -> nat {
    (c as u32 - 48) as nat
}

/// A decimal separator: dot, or the comma some sources use instead.
pub open spec fn is_sep(c: char) -> bool {
    c == '.' || c == ','
}

/// Every character of `s[a..b]` is a decimal digit.
pub open spec fn all_digits_range(s: Seq<char>, a: int, b: int) -> bool {
    forall|i: int| a <= i < b ==> is_digit(s[i])
}

/// The numeric value of the digit run `s[a..b]`, read most significant first.
pub open spec fn digits_val_range(s: Seq<char>, a: int, b: int) -> nat
    decreases b - a,
{
    if b <= a {
        0
    } else {
        digits_val_range(s, a, b - 1) * 10 + digit_val(s[b - 1])
    }
}

/// A digit run's value grows (weakly) with its length.
pub proof fn lemma_digits_val_range_prefix(s: Seq<char>, a: int, m: int, b: int)
    requires
        a <= m <= b,
    ensures
        digits_val_range(s, a, m) <= digits_val_range(s, a, b),
    decreases b - m,
{
    if m < b {
        lemma_digits_val_range_prefix(s, a, m, b - 1);
    }
}

/// A run of `b - a` digits is worth less than 10^(b - a).
pub proof fn lemma_digits_val_range_bound(s: Seq<char>, a: int, b: int)
    requires
        a <= b,
        all_digits_range(s, a, b),
    ensures
        digits_val_range(s, a, b) < pow10((b - a) as nat),
    decreases b - a,
{
    if a < b {
        lemma_digits_val_range_bound(s, a, b - 1);
        assert(is_digit(s[b - 1]));
        assert(pow10((b - a) as nat) == 10 * pow10((b - a - 1) as nat));
    } else {
        assert(pow10(0) == 1);
    }
}

/// The first separator lies in the searched range and is a separator, and
/// nothing before it is one; a `None` answer means the range has none.
pub proof fn lemma_first_sep_props(s: Seq<char>, i: int)
    requires
        0 <= i <= s.len(),
    ensures
        match first_sep(s, i) {
            Some(p) => i <= p < s.len() && is_sep(s[p]) && forall|j: int|
                i <= j < p ==> !is_sep(s[j]),
            None => forall|j: int| i <= j < s.len() ==> !is_sep(s[j]),
        },
    decreases s.len() - i,
{
    if i < s.len() && !is_sep(s[i]) {
        lemma_first_sep_props(s, i + 1);
    }
}

/// Index of the first separator at or after `i`, if any.
pub open spec fn first_sep(s: Seq<char>, i: int) -> Option<int>
    decreases s.len() - i,
{
    if i < 0 || i >= s.len() {
        None
    } else if is_sep(s[i]) {
        Some(i)
    } else {
        first_sep(s, i + 1)
    }
}

/// The temperature written with sign `neg`, integer part `iv`, fraction part
/// `fv` of `fd` digits; or the rejection of one too large to represent.
pub open spec fn temp_from_parts(neg: bool, iv: nat, fv: nat, fd: nat) -> Result<
    Temp,
    StribotError,
> {
    if iv >= pow10(18) || fd > 18 {
        Err(StribotError::ParseError)
    } else {
        let u = iv * pow10(18) + fv * pow10((18 - fd) as nat);
        Ok(Temp { neg: neg && u > 0, units: u as u128 })
    }
}

/// What the numeric normalizer yields on a character sequence: an optional
/// leading sign, digits, and at most one separator (`.` or `,`, normalized
/// away), with at least one digit and nothing else; `ParseError` otherwise,
/// and also when the written value needs more than 18 integer digits or more
/// than 18 fraction digits.
pub open spec fn dec_spec(s: Seq<char>) -> Result<Temp, StribotError> {
    if s.len() == 0 {
        Err(StribotError::ParseError)
    } else {
        let neg = s[0] == '-';
        let start: int = if s[0] == '-' || s[0] == '+' {
            1
        } else {
            0
        };
        let len = s.len() as int;
        match first_sep(s, start) {
            None => {
                if start < len && all_digits_range(s, start, len) {
                    temp_from_parts(neg, digits_val_range(s, start, len), 0, 0)
                } else {
                    Err(StribotError::ParseError)
                }
            },
            Some(p) => {
                if (start < p || p + 1 < len) && all_digits_range(s, start, p)
                    && all_digits_range(s, p + 1, len) {
                    temp_from_parts(
                        neg,
                        digits_val_range(s, start, p),
                        digits_val_range(s, p + 1, len),
                        (len - p - 1) as nat,
                    )
                } else {
                    Err(StribotError::ParseError)
                }
            },
        }
    }
}

/// A successfully normalized temperature is well-formed.
pub proof fn lemma_dec_spec_wf(s: Seq<char>)
    ensures
        dec_spec(s) matches Ok(t) ==> t.wf(),
{
    if dec_spec(s) is Ok {
        let start: int = if s[0] == '-' || s[0] == '+' {
            1
        } else {
            0
        };
        let len = s.len() as int;
        lemma_first_sep_props(s, start);
        match first_sep(s, start) {
            None => {
                assert(pow10(0) == 1);
                lemma_temp_from_parts_wf(s[0] == '-', digits_val_range(s, start, len), 0, 0);
            },
            Some(p) => {
                if (start < p || p + 1 < len) && all_digits_range(s, start, p)
                    && all_digits_range(s, p + 1, len) {
                    lemma_digits_val_range_bound(s, p + 1, len);
                    lemma_temp_from_parts_wf(
                        s[0] == '-',
                        digits_val_range(s, start, p),
                        digits_val_range(s, p + 1, len),
                        (len - p - 1) as nat,
                    );
                }
            },
        }
    }
}

/// In-range written parts yield a well-formed temperature.
pub proof fn lemma_temp_from_parts_wf(neg: bool, iv: nat, fv: nat, fd: nat)
    requires
        fd <= 18 ==> fv < pow10(fd),
    ensures
        temp_from_parts(neg, iv, fv, fd) matches Ok(t) ==> t.wf(),
{
    if iv < pow10(18) && fd <= 18 {
        lemma_units_bound(iv, fv, fd);
        let u = iv * pow10(18) + fv * pow10((18 - fd) as nat);
        assert(u as u128 == u);
    }
}

/// In-range written parts make a value below the representable bound.
pub proof fn lemma_units_bound(iv: nat, fv: nat, fd: nat)
    requires
        iv < pow10(18),
        fd <= 18,
        fv < pow10(fd),
    ensures
        iv * pow10(18) + fv * pow10((18 - fd) as nat) < UNITS_LIMIT,
{
    lemma_unit_scale();
    let sc = pow10((18 - fd) as nat);
    let p18 = pow10(18);
    let pfd = pow10(fd);
    lemma_pow10_positive((18 - fd) as nat);
    lemma_pow10_positive(fd);
    lemma_pow10_adds(fd, (18 - fd) as nat);
    assert(pfd * sc == p18);
    assert(fv * sc <= (pfd - 1) * sc) by (nonlinear_arith)
        requires
            fv < pfd,
            sc >= 1,
    ;
    assert((pfd - 1) * sc == pfd * sc - sc) by (nonlinear_arith);
    assert(iv * p18 <= (p18 - 1) * p18) by (nonlinear_arith)
        requires
            iv < p18,
            p18 >= 1,
    ;
    assert((p18 - 1) * p18 == p18 * p18 - p18) by (nonlinear_arith);
    assert(p18 * p18 == UNITS_LIMIT);
}

/// Executable decimal digit test.
pub fn is_digit_exec(c: char) -> (r: bool)
    ensures
        r == is_digit(c),
{
    let u = c as u32;
    48 <= u && u <= 57
}

/// Executable separator test.
pub fn is_sep_exec(c: char) -> (r: bool)
    ensures
        r == is_sep(c),
{
    c == '.' || c == ','
}

/// Executable check that `s[a..b]` holds decimal digits only.
pub fn all_digits_exec(s: &Vec<char>, a: usize, b: usize) -> (r: bool)
    requires
        a <= b <= s.len(),
    ensures
        r == all_digits_range(s@, a as int, b as int),
{
    let mut i: usize = a;
    while i < b
        invariant
            a <= i <= b <= s.len(),
            forall|j: int| a <= j < i ==> is_digit(s@[j]),
        decreases b - i,
    {
        if !is_digit_exec(s[i]) {
            return false;
        }
        i += 1;
    }
    true
}

/// Executable search for the first separator at or after `i`.
pub fn find_sep(s: &Vec<char>, i: usize) -> (r: Option<usize>)
    requires
        i <= s.len(),
    ensures
        match r {
            Some(p) => first_sep(s@, i as int) == Some(p as int) && i <= p < s.len(),
            None => first_sep(s@, i as int) is None,
        },
    decreases s.len() - i,
{
    if i >= s.len() {
        None
    } else if is_sep_exec(s[i]) {
        Some(i)
    } else {
        find_sep(s, i + 1)
    }
}

/// Executable digit-run evaluation; answers `None` when the run's value
/// reaches 10^18.
pub fn digits_value_u64(s: &Vec<char>, a: usize, b: usize) -> (r: Option<u64>)
    requires
        a <= b <= s.len(),
        all_digits_range(s@, a as int, b as int),
    ensures
        match r {
            Some(v) => v == digits_val_range(s@, a as int, b as int) && v < UNIT_SCALE,
            None => digits_val_range(s@, a as int, b as int) >= UNIT_SCALE,
        },
{
    let mut acc: u64 = 0;
    let mut i: usize = a;
    while i < b
        invariant
            a <= i <= b <= s.len(),
            all_digits_range(s@, a as int, b as int),
            acc == digits_val_range(s@, a as int, i as int),
            acc < UNIT_SCALE,
        decreases b - i,
    {
        proof {
            assert(is_digit(s@[i as int]));
        }
        let d = (s[i] as u32 - 48) as u64;
        let next = acc * 10 + d;
        if next >= UNIT_SCALE {
            proof {
                lemma_digits_val_range_prefix(s@, a as int, i + 1, b as int);
            }
            return None;
        }
        acc = next;
        i += 1;
    }
    Some(acc)
}

/// Executable power of ten.
pub fn pow10_u64(n: u32) -> (r: u64)
    requires
        n <= 18,
    ensures
        r as nat == pow10(n as nat),
{
    let mut r: u64 = 1;
    let mut i: u32 = 0;
    proof {
        lemma_unit_scale();
    }
    while i < n
        invariant
            i <= n <= 18,
            r as nat == pow10(i as nat),
            pow10(18) == UNIT_SCALE,
        decreases n - i,
    {
        proof {
            lemma_pow10_increases((i + 1) as nat, 18);
            assert(pow10((i + 1) as nat) == 10 * pow10(i as nat));
        }
        r = r * 10;
        i += 1;
    }
    r
}

/// Assemble a temperature from in-range written parts.
fn temp_make(neg: bool, iv: u64, fv: u64, fd: u32) -> (t: Temp)
    requires
        iv < UNIT_SCALE,
        fd <= 18,
        (fv as nat) < pow10(fd as nat),
    ensures
        temp_from_parts(neg, iv as nat, fv as nat, fd as nat) == Ok::<Temp, StribotError>(t),
        t.wf(),
{
    proof {
        lemma_unit_scale();
        lemma_units_bound(iv as nat, fv as nat, fd as nat);
    }
    let sc = pow10_u64(18 - fd);
    let u = (iv as u128) * (UNIT_SCALE as u128) + (fv as u128) * (sc as u128);
    Temp { neg: neg && u > 0, units: u }
}

/// Normalize a locale-formatted decimal string into an exact temperature:
/// an optional leading sign, digits, at most one `.` or `,` separator.
pub fn parse_decimal(s: &str) -> (r: Result<Temp, StribotError>)
    ensures
        r == dec_spec(s@),
{
    let chars = to_chars(s);
    parse_decimal_chars(&chars)
}

/// The normalizer on an already decoded character vector.
pub fn parse_decimal_chars(s: &Vec<char>) -> (r: Result<Temp, StribotError>)
    ensures
        r == dec_spec(s@),
{
    if s.len() == 0 {
        return Err(StribotError::ParseError);
    }
    let c0 = s[0];
    let neg = c0 == '-';
    let start: usize = if c0 == '-' || c0 == '+' {
        1
    } else {
        0
    };
    proof {
        lemma_unit_scale();
        lemma_first_sep_props(s@, start as int);
    }
    match find_sep(s, start) {
        None => {
            if start < s.len() && all_digits_exec(s, start, s.len()) {
                match digits_value_u64(s, start, s.len()) {
                    Some(iv) => {
                        proof {
                            assert(pow10(0) == 1);
                        }
                        Ok(temp_make(neg, iv, 0, 0))
                    },
                    None => Err(StribotError::ParseError),
                }
            } else {
                Err(StribotError::ParseError)
            }
        },
        Some(p) => {
            if (start < p || p + 1 < s.len()) && all_digits_exec(s, start, p) && all_digits_exec(
                s,
                p + 1,
                s.len(),
            ) {
                let fd = s.len() - (p + 1);
                if fd > 18 {
                    return Err(StribotError::ParseError);
                }
                match digits_value_u64(s, start, p) {
                    Some(iv) => {
                        proof {
                            lemma_digits_val_range_bound(s@, p + 1, s.len() as int);
                        }
                        match digits_value_u64(s, p + 1, s.len()) {
                            Some(fv) => {
                                proof {
                                    lemma_pow10_increases(fd as nat, 18);
                                }
                                Ok(temp_make(neg, iv, fv, fd as u32))
                            },
                            None => {
                                proof {
                                    lemma_pow10_increases(fd as nat, 18);
                                    assert(false);
                                }
                                Err(StribotError::ParseError)
                            },
                        }
                    },
                    None => Err(StribotError::ParseError),
                }
            } else {
                Err(StribotError::ParseError)
            }
        },
    }
}

/// 10^(a + b) == 10^a * 10^b.
pub proof fn lemma_pow10_adds(a: nat, b: nat)
    ensures
        pow10(a + b) == pow10(a) * pow10(b),
    decreases a,
{
    if a == 0 {
        assert(pow10(a) == 1);
        assert(pow10(a + b) == pow10(b));
    } else {
        let x = pow10((a - 1) as nat);
        let y = pow10(b);
        lemma_pow10_adds((a - 1) as nat, b);
        assert((a + b - 1) as nat == (a - 1) as nat + b);
        assert(pow10(a + b) == 10 * pow10((a + b - 1) as nat));
        assert(pow10((a + b - 1) as nat) == x * y);
        assert(10 * (x * y) == (10 * x) * y) by (nonlinear_arith);
        assert(pow10(a) == 10 * x);
    }
}

} // verus!
