use vstd::prelude::*;
use vstd::string::StrSliceExecFns;
use vstd::string::StringExecFns;
use crate::error::PdfError;

verus! {

/// Largest magnitude of a mantissa: costs carry at most 28 significant digits,
/// as a 28-digit fixed-point value is the widest that the arithmetic here
/// handles exactly.
pub const UNITS_BOUND: i128 = 10_000_000_000_000_000_000_000_000_000;

/// Ten to the given power, as a mathematical integer.
pub open spec fn pow10(e: nat) -> int
    decreases e,
{
    if e == 0 {
        1
    } else {
        10 * pow10((e - 1) as nat)
    }
}

pub proof fn lemma_pow10_pos(e: nat)
    ensures
        pow10(e) >= 1,
    decreases e,
{
    if e > 0 {
        lemma_pow10_pos((e - 1) as nat);
    }
}

pub proof fn lemma_pow10_adds(a: nat, b: nat)
    ensures
        pow10(a + b) == pow10(a) * pow10(b),
    decreases a,
{
    if a == 0 {
    } else {
        lemma_pow10_adds((a - 1) as nat, b);
        assert(pow10(a + b) == 10 * pow10(((a - 1) + b) as nat));
        assert(10 * (pow10((a - 1) as nat) * pow10(b)) == (10 * pow10((a - 1) as nat)) * pow10(b))
            by (nonlinear_arith);
    }
}

pub proof fn lemma_pow10_mono(a: nat, b: nat)
    requires
        a <= b,
    ensures
        pow10(a) <= pow10(b),
    decreases b,
{
    if a < b {
        lemma_pow10_mono(a, (b - 1) as nat);
        lemma_pow10_pos((b - 1) as nat);
    }
}

pub proof fn lemma_pow10_28()
    ensures
        pow10(28) == UNITS_BOUND,
{
    reveal_with_fuel(pow10, 29);
}

/// Ten to the given power, computed at run time.
pub fn pow10_i128(e: u32) -> (r: i128)
    requires
        e <= 28,
    ensures
        r == pow10(e as nat),
        r >= 1,
{
    let mut r: i128 = 1;
    let mut i: u32 = 0;
    proof {
        lemma_pow10_pos(0);
    }
    while i < e
        invariant
            i <= e,
            e <= 28,
            r == pow10(i as nat),
            r >= 1,
        decreases e - i,
    {
        proof {
            lemma_pow10_mono((i + 1) as nat, 28);
            lemma_pow10_28();
        }
        r = r * 10;
        i = i + 1;
    }
    r
}

/// An exact fixed-point decimal: the value `units / 10^scale`. This is the
/// cost representation of the library; it never passes through a binary
/// float, so money arithmetic has no rounding drift.
#[derive(Clone, Copy, Debug, PartialEq, Eq, Structural)]
pub struct Decimal {
    pub units: i128,
    pub scale: u32,
}

impl Decimal {
    /// Well-formedness: at most 28 fractional digits, mantissa below 28 digits.
    pub open spec fn inv(self) -> bool {
        self.scale <= 28 && -UNITS_BOUND < self.units && self.units < UNITS_BOUND
    }

    /// The value of the decimal, scaled to a fixed denominator of `10^28`:
    /// two decimals denote the same number exactly when their `val` agree.
    pub open spec fn val(self) -> int {
        self.units * pow10((28 - self.scale) as nat)
    }

    /// Zero, rendered with no fractional digits.
    pub fn zero() -> (r: Decimal)
        ensures
            r.units == 0,
            r.scale == 0,
            r.inv(),
            r.val() == 0,
    {
        Decimal { units: 0, scale: 0 }
    }

    /// A whole number of minor currency units (cents), as a decimal with two
    /// fractional digits.
    pub fn from_cents(c: i128) -> (r: Decimal)
        requires
            -UNITS_BOUND < c < UNITS_BOUND,
        ensures
            r.units == c,
            r.scale == 2,
            r.inv(),
    {
        Decimal { units: c, scale: 2 }
    }
}

} // verus!

verus! {

// ---------------------------------------------------------------------------
// Parsing a cost segment.
// ---------------------------------------------------------------------------

pub open spec fn is_digit(c: char) -> bool {
    48 <= c as u32 && c as u32 <= 57
}

pub open spec fn digit_val(c: char) -> int {
    c as u32 - 48
}

/// One left-to-right pass over the body of a cost string, from position `i`,
/// with `acc` the mantissa read so far, `frac` the count of digits read after
/// the dot (negative while no dot has been read) and `seen` whether any digit
/// has been read. Yields the mantissa and the fractional digit count, or
/// nothing if the body is not of the form `digits [ '.' digits ]` with at
/// least one digit.
pub open spec fn scan_cost(s: Seq<char>, i: int, acc: int, frac: int, seen: bool) -> Option<(
    int,
    int,
)>
    decreases s.len() - i,
{
    if i < 0 || i >= s.len() {
        if seen {
            Some((acc, if frac >= 0 { frac } else { 0 }))
        } else {
            None
        }
    } else if is_digit(s[i]) {
        scan_cost(s, i + 1, acc * 10 + digit_val(s[i]), if frac >= 0 { frac + 1 } else { frac }, true)
    } else if s[i] == '.' && frac < 0 {
        scan_cost(s, i + 1, acc, 0, seen)
    } else {
        None
    }
}

/// `-1` for a leading minus sign, else `1`.
pub open spec fn cost_sign(s: Seq<char>) -> int {
    if s.len() > 0 && s[0] == '-' {
        -1
    } else {
        1
    }
}

/// The string with a leading sign removed.
pub open spec fn cost_body(s: Seq<char>) -> Seq<char> {
    if s.len() > 0 && (s[0] == '-' || s[0] == '+') {
        s.skip(1)
    } else {
        s
    }
}

/// Whether the string is a parseable decimal number: an optional sign, then
/// digits with at most one dot and at least one digit, with at most 28
/// fractional digits and a mantissa under 28 digits.
pub open spec fn parse_ok(s: Seq<char>) -> bool {
    match scan_cost(cost_body(s), 0, 0, -1, false) {
        Some((m, f)) => m < UNITS_BOUND && f <= 28,
        None => false,
    }
}

/// The signed mantissa of a parseable decimal string.
pub open spec fn parse_units(s: Seq<char>) -> int {
    match scan_cost(cost_body(s), 0, 0, -1, false) {
        Some((m, f)) => cost_sign(s) * m,
        None => 0,
    }
}

/// The fractional digit count of a parseable decimal string.
pub open spec fn parse_scale(s: Seq<char>) -> int {
    match scan_cost(cost_body(s), 0, 0, -1, false) {
        Some((m, f)) => f,
        None => 0,
    }
}

/// The scan never shrinks the mantissa or the fractional digit count it was
/// started with.
proof fn lemma_scan_grows(s: Seq<char>, i: int, acc: int, frac: int, seen: bool)
    requires
        acc >= 0,
    ensures
        match scan_cost(s, i, acc, frac, seen) {
            Some((m, f)) => m >= acc && f >= frac,
            None => true,
        },
    decreases s.len() - i,
{
    if i < 0 || i >= s.len() {
    } else if is_digit(s[i]) {
        lemma_scan_grows(
            s,
            i + 1,
            acc * 10 + digit_val(s[i]),
            if frac >= 0 {
                frac + 1
            } else {
                frac
            },
            true,
        );
    } else if s[i] == '.' && frac < 0 {
        lemma_scan_grows(s, i + 1, acc, 0, seen);
    }
}

impl Decimal {
    /// Parses a cost segment as an exact decimal. Returns `InvalidCost`
    /// exactly when the string is not of the form
    /// `[sign] digits [ '.' digits ]` with at least one digit, at most 28
    /// fractional digits, and a mantissa under 28 digits.
    pub fn parse(s: &str) -> (r: Result<Decimal, PdfError>)
        ensures
            match r {
                Ok(d) => parse_ok(s@) && d.inv() && d.units == parse_units(s@) && d.scale
                    == parse_scale(s@),
                Err(e) => !parse_ok(s@) && e is InvalidCost && e.spec_detail() == s@,
            },
    {
        let n = s.unicode_len();
        let mut i: usize = 0;
        let mut neg: bool = false;
        if n > 0 {
            let c0 = s.get_char(0);
            if c0 == '-' {
                neg = true;
                i = 1;
            } else if c0 == '+' {
                i = 1;
            }
        }
        let ghost start = i as int;
        let ghost body = s@.skip(start);
        proof {
            assert(body =~= cost_body(s@));
        }
        let mut acc: i128 = 0;
        let mut has_dot: bool = false;
        let mut fraclen: u32 = 0;
        let mut seen: bool = false;
        while i < n
            invariant
                0 <= start <= i as int <= n,
                n == s@.len(),
                body == s@.skip(start),
                body == cost_body(s@),
                0 <= acc < UNITS_BOUND,
                fraclen <= 28,
                !has_dot ==> fraclen == 0,
                scan_cost(
                    body,
                    i - start,
                    acc as int,
                    if has_dot {
                        fraclen as int
                    } else {
                        -1
                    },
                    seen,
                ) == scan_cost(body, 0, 0, -1, false),
            decreases n - i,
        {
            let ghost k = i - start;
            let ghost frac0: int = if has_dot {
                fraclen as int
            } else {
                -1
            };
            let c = s.get_char(i);
            proof {
                assert(body == s@.subrange(start, s@.len() as int));
                assert(s@.subrange(start, s@.len() as int)[k] == s@[k + start]);
                assert(body[k] == c);
            }
            let cu = c as u32;
            if 48 <= cu && cu <= 57 {
                let ghost acc0 = acc as int;
                let ghost frac1: int = if frac0 >= 0 {
                    frac0 + 1
                } else {
                    frac0
                };
                let d = (cu - 48) as i128;
                proof {
                    assert(is_digit(body[k]));
                    assert(digit_val(c) == d as int);
                    assert(scan_cost(body, k, acc0, frac0, seen) == scan_cost(
                        body,
                        k + 1,
                        acc0 * 10 + digit_val(c),
                        frac1,
                        true,
                    ));
                }
                acc = acc * 10 + d;
                seen = true;
                proof {
                    assert(acc as int == acc0 * 10 + digit_val(c));
                    assert(scan_cost(body, 0, 0, -1, false) == scan_cost(
                        body,
                        k + 1,
                        acc as int,
                        frac1,
                        true,
                    ));
                }
                if has_dot {
                    if fraclen == 28 {
                        proof {
                            assert(frac1 == 29);
                            lemma_scan_grows(body, k + 1, acc as int, 29, true);
                        }
                        return Err(PdfError::InvalidCost(String::from_str(s)));
                    }
                    fraclen = fraclen + 1;
                }
                if acc >= UNITS_BOUND {
                    proof {
                        lemma_scan_grows(body, k + 1, acc as int, frac1, true);
                    }
                    return Err(PdfError::InvalidCost(String::from_str(s)));
                }
            } else if c == '.' && !has_dot {
                proof {
                    assert(scan_cost(body, k, acc as int, frac0, seen) == scan_cost(
                        body,
                        k + 1,
                        acc as int,
                        0,
                        seen,
                    ));
                }
                has_dot = true;
                fraclen = 0;
            } else {
                proof {
                    assert(scan_cost(body, k, acc as int, frac0, seen) is None);
                }
                return Err(PdfError::InvalidCost(String::from_str(s)));
            }
            i = i + 1;
        }
        if !seen {
            proof {
                assert(scan_cost(body, i - start, acc as int, if has_dot { fraclen as int } else { -1 }, false) is None);
            }
            return Err(PdfError::InvalidCost(String::from_str(s)));
        }
        let units: i128 = if neg {
            -acc
        } else {
            acc
        };
        Ok(Decimal { units, scale: fraclen })
    }
}

} // verus!

verus! {

// ---------------------------------------------------------------------------
// Rendering a decimal back into a cost segment.
// ---------------------------------------------------------------------------

pub open spec fn digit_char(d: int) -> char {
    if d == 0 {
        '0'
    } else if d == 1 {
        '1'
    } else if d == 2 {
        '2'
    } else if d == 3 {
        '3'
    } else if d == 4 {
        '4'
    } else if d == 5 {
        '5'
    } else if d == 6 {
        '6'
    } else if d == 7 {
        '7'
    } else if d == 8 {
        '8'
    } else {
        '9'
    }
}

/// The ordinary base-ten rendering of a nonnegative integer, no leading
/// zeros (except for zero itself).
pub open spec fn digits_of(n: int) -> Seq<char>
    decreases n,
{
    if n < 10 {
        seq![digit_char(n)]
    } else {
        digits_of(n / 10).push(digit_char(n % 10))
    }
}

/// The low `w` base-ten digits of a nonnegative integer, zero-padded to
/// exactly `w` characters.
pub open spec fn fixed_digits(n: int, w: nat) -> Seq<char>
    decreases w,
{
    if w == 0 {
        Seq::empty()
    } else {
        fixed_digits(n / 10, (w - 1) as nat).push(digit_char(n % 10))
    }
}

/// How a decimal prints: an optional minus sign, the integer part, and for a
/// positive scale a dot followed by exactly `scale` fractional digits.
pub open spec fn render_seq(d: Decimal) -> Seq<char> {
    let a: int = if d.units < 0 {
        0 - d.units
    } else {
        d.units as int
    };
    let p = pow10(d.scale as nat);
    let sign: Seq<char> = if d.units < 0 {
        seq!['-']
    } else {
        Seq::empty()
    };
    if d.scale == 0 {
        sign + digits_of(a)
    } else {
        sign + digits_of(a / p) + seq!['.'] + fixed_digits(a % p, d.scale as nat)
    }
}

fn digit_str(d: u128) -> (r: &'static str)
    requires
        d <= 9,
    ensures
        r@ == seq![digit_char(d as int)],
{
    proof {
        reveal_strlit("0");
        reveal_strlit("1");
        reveal_strlit("2");
        reveal_strlit("3");
        reveal_strlit("4");
        reveal_strlit("5");
        reveal_strlit("6");
        reveal_strlit("7");
        reveal_strlit("8");
        reveal_strlit("9");
    }
    let r: &'static str = if d == 0 {
        "0"
    } else if d == 1 {
        "1"
    } else if d == 2 {
        "2"
    } else if d == 3 {
        "3"
    } else if d == 4 {
        "4"
    } else if d == 5 {
        "5"
    } else if d == 6 {
        "6"
    } else if d == 7 {
        "7"
    } else if d == 8 {
        "8"
    } else {
        "9"
    };
    proof {
        assert(r@ =~= seq![digit_char(d as int)]);
    }
    r
}

fn render_nat(n: u128) -> (s: String)
    ensures
        s@ == digits_of(n as int),
    decreases n,
{
    if n < 10 {
        String::from_str(digit_str(n))
    } else {
        let mut s = render_nat(n / 10);
        s.append(digit_str(n % 10));
        proof {
            assert(s@ =~= digits_of(n as int));
        }
        s
    }
}

fn render_fixed(n: u128, w: u32) -> (s: String)
    ensures
        s@ == fixed_digits(n as int, w as nat),
    decreases w,
{
    if w == 0 {
        let s = String::new();
        proof {
            assert(s@ =~= fixed_digits(n as int, 0));
        }
        s
    } else {
        let mut s = render_fixed(n / 10, w - 1);
        s.append(digit_str(n % 10));
        proof {
            assert(s@ =~= fixed_digits(n as int, w as nat));
        }
        s
    }
}

impl Decimal {
    /// Prints the decimal exactly as it is stored: the mantissa with a dot
    /// before the last `scale` digits, e.g. a mantissa of 1250 at scale 2 as
    /// `12.50`. The rendering keeps trailing zeros, so a cost re-encoded into
    /// a file name prints with the same number of fractional digits it was
    /// built with.
    pub fn render(&self) -> (s: String)
        requires
            self.inv(),
        ensures
            s@ == render_seq(*self),
    {
        proof {
            reveal_strlit("-");
            reveal_strlit(".");
        }
        let neg = self.units < 0;
        let au: u128 = if neg {
            (-self.units) as u128
        } else {
            self.units as u128
        };
        let ghost a: int = if self.units < 0 {
            0 - self.units
        } else {
            self.units as int
        };
        proof {
            assert(au as int == a);
        }
        let mut s = String::new();
        if neg {
            s.append("-");
            proof {
                assert(("-")@ =~= seq!['-']);
            }
        }
        if self.scale == 0 {
            proof {
                lemma_pow10_pos(0);
            }
            s.append(render_nat(au).as_str());
            proof {
                assert(s@ =~= render_seq(*self));
            }
        } else {
            let p = pow10_i128(self.scale);
            let pu = p as u128;
            proof {
                assert(pu as int == pow10(self.scale as nat));
            }
            let ip = au / pu;
            let fp = au % pu;
            s.append(render_nat(ip).as_str());
            s.append(".");
            s.append(render_fixed(fp, self.scale).as_str());
            proof {
                assert((".")@ =~= seq!['.']);
                assert(s@ =~= render_seq(*self));
            }
        }
        s
    }
}

} // verus!

verus! {

// ---------------------------------------------------------------------------
// Exact addition, minor-unit conversion, value equality.
// ---------------------------------------------------------------------------

/// The larger of the two scales.
pub open spec fn scale_max(a: Decimal, b: Decimal) -> u32 {
    if a.scale >= b.scale {
        a.scale
    } else {
        b.scale
    }
}

/// The mantissa of `d` rescaled to scale `m` (for `m >= d.scale`).
pub open spec fn aligned_units(d: Decimal, m: nat) -> int {
    d.units * pow10((m - d.scale) as nat)
}

/// The two decimals, and their exact sum, stay within 28 mantissa digits at
/// the common scale: the machine limit under which addition here is exact.
pub open spec fn add_ok(a: Decimal, b: Decimal) -> bool {
    let m = scale_max(a, b) as nat;
    &&& -UNITS_BOUND < aligned_units(a, m) < UNITS_BOUND
    &&& -UNITS_BOUND < aligned_units(b, m) < UNITS_BOUND
    &&& -UNITS_BOUND < aligned_units(a, m) + aligned_units(b, m) < UNITS_BOUND
}

/// Rescaling a mantissa leaves the denoted value unchanged.
pub proof fn lemma_aligned_val(d: Decimal, m: nat)
    requires
        d.inv(),
        d.scale <= m <= 28,
    ensures
        aligned_units(d, m) * pow10((28 - m) as nat) == d.val(),
{
    let e1 = (m - d.scale) as nat;
    let e2 = (28 - m) as nat;
    lemma_pow10_adds(e1, e2);
    assert((d.units * pow10(e1)) * pow10(e2) == d.units * (pow10(e1) * pow10(e2)))
        by (nonlinear_arith);
}

impl Decimal {
    /// Exact addition: the result denotes precisely the sum of the two
    /// values, at the larger of the two scales.
    pub fn add(self, other: Decimal) -> (r: Decimal)
        requires
            self.inv(),
            other.inv(),
            add_ok(self, other),
        ensures
            r.inv(),
            r.scale == scale_max(self, other),
            r.units == aligned_units(self, scale_max(self, other) as nat) + aligned_units(
                other,
                scale_max(self, other) as nat,
            ),
            r.val() == self.val() + other.val(),
    {
        let m = if self.scale >= other.scale {
            self.scale
        } else {
            other.scale
        };
        let pa = pow10_i128(m - self.scale);
        let pb = pow10_i128(m - other.scale);
        let ua = self.units * pa;
        let ub = other.units * pb;
        let r = Decimal { units: ua + ub, scale: m };
        proof {
            lemma_aligned_val(self, m as nat);
            lemma_aligned_val(other, m as nat);
            let p = pow10((28 - m) as nat);
            assert((ua + ub) * p == ua * p + ub * p) by (nonlinear_arith);
        }
        r
    }
}

/// Round-half-to-even division of a nonnegative integer `n` by a positive
/// divisor `p`.
pub open spec fn rhe_nonneg(n: int, p: int) -> int {
    let q = n / p;
    let r = n % p;
    if 2 * r > p {
        q + 1
    } else if 2 * r < p {
        q
    } else if q % 2 == 0 {
        q
    } else {
        q + 1
    }
}

/// Round-half-to-even division, symmetric about zero.
pub open spec fn rhe(n: int, p: int) -> int {
    if n >= 0 {
        rhe_nonneg(n, p)
    } else {
        -rhe_nonneg(-n, p)
    }
}

/// The value of `d` in minor currency units (cents): the value times 100,
/// rounded half-to-even to the nearest integer.
pub open spec fn cents_of(d: Decimal) -> int {
    if d.scale <= 2 {
        d.units * pow10((2 - d.scale) as nat)
    } else {
        rhe(d.units as int, pow10((d.scale - 2) as nat))
    }
}

/// Whether the value of `d` is a whole number of cents, so that the
/// conversion to cents is exact.
pub open spec fn cent_exact(d: Decimal) -> bool {
    d.scale <= 2 || (d.units as int) % pow10((d.scale - 2) as nat) == 0
}

/// The machine limit for the cents conversion: the cent count has under
/// 28 digits.
pub open spec fn cents_in_range(d: Decimal) -> bool {
    -UNITS_BOUND < cents_of(d) < UNITS_BOUND
}

impl Decimal {
    /// The value in cents, rounded half-to-even.
    pub fn to_cents(&self) -> (c: i128)
        requires
            self.inv(),
            cents_in_range(*self),
        ensures
            c == cents_of(*self),
    {
        if self.scale <= 2 {
            let p = pow10_i128(2 - self.scale);
            self.units * p
        } else {
            let p = pow10_i128(self.scale - 2);
            let neg = self.units < 0;
            let m: u128 = if neg {
                (-self.units) as u128
            } else {
                self.units as u128
            };
            let pu = p as u128;
            let q = m / pu;
            let r = m % pu;
            let rounded: u128 = if 2 * r > pu {
                q + 1
            } else if 2 * r < pu {
                q
            } else if q % 2 == 0 {
                q
            } else {
                q + 1
            };
            proof {
                assert(m as int / pu as int == q as int);
                assert(m as int % pu as int == r as int);
                assert(rounded as int == rhe_nonneg(m as int, pu as int));
                assert(q <= m);
            }
            if neg {
                -(rounded as i128)
            } else {
                rounded as i128
            }
        }
    }
}

impl Decimal {
    /// Whether two decimals denote exactly the same number, e.g. `3.5` and
    /// `3.50`.
    pub fn eq_value(&self, other: &Decimal) -> (r: bool)
        requires
            self.inv(),
            other.inv(),
        ensures
            r == (self.val() == other.val()),
    {
        let (lu, ls, hu, hs) = if self.scale <= other.scale {
            (self.units, self.scale, other.units, other.scale)
        } else {
            (other.units, other.scale, self.units, self.scale)
        };
        let ghost lo = Decimal { units: lu, scale: ls };
        let ghost hi = Decimal { units: hu, scale: hs };
        proof {
            assert(lo.val() == self.val() && hi.val() == other.val() || lo.val() == other.val()
                && hi.val() == self.val());
        }
        let p = pow10_i128(hs - ls);
        let r = match lu.checked_mul(p) {
            Some(v) => v == hu,
            None => false,
        };
        proof {
            lemma_aligned_val(lo, hs as nat);
            let e = pow10((28 - hs) as nat);
            lemma_pow10_pos((28 - hs) as nat);
            let al = lu * pow10((hs - ls) as nat);
            assert(al == aligned_units(lo, hs as nat));
            assert(al * e == hu * e <==> al == hu) by (nonlinear_arith)
                requires
                    e >= 1,
            ;
            if lu.checked_mul(p) is None {
                assert(al != hu);
            }
        }
        r
    }
}

} // verus!

verus! {

/// The conversion to cents is value-preserving exactly when the decimal is a
/// whole number of cents: `cents * 10^26` is the cent count at the fixed
/// denominator of `val`.
pub proof fn lemma_cents_val(d: Decimal)
    requires
        d.inv(),
    ensures
        cent_exact(d) <==> (cents_of(d) * pow10(26) == d.val()),
{
    if d.scale <= 2 {
        let e1 = (2 - d.scale) as nat;
        lemma_pow10_adds(e1, 26);
        assert((d.units * pow10(e1)) * pow10(26) == d.units * (pow10(e1) * pow10(26)))
            by (nonlinear_arith);
    } else {
        let s = d.scale;
        let p = pow10((s - 2) as nat);
        let e = pow10((28 - s) as nat);
        lemma_pow10_pos((s - 2) as nat);
        lemma_pow10_pos((28 - s) as nat);
        lemma_pow10_adds((s - 2) as nat, (28 - s) as nat);
        assert(pow10(26) == p * e);
        let u = d.units as int;
        let cents = cents_of(d);
        assert(cents * (p * e) == (cents * p) * e) by (nonlinear_arith);
        assert(((cents * p) * e == u * e) <==> (cents * p == u)) by (nonlinear_arith)
            requires
                e >= 1,
        ;
        if u >= 0 {
            vstd::arithmetic::div_mod::lemma_fundamental_div_mod(u, p);
            vstd::arithmetic::div_mod::lemma_mod_bound(u, p);
            let q = u / p;
            let r = u % p;
            assert(u == p * q + r);
            assert(cents == rhe_nonneg(u, p));
            if r == 0 {
                assert(cents == q);
                assert(q * p == p * q) by (nonlinear_arith);
                assert(cents * p == u);
                assert(cent_exact(d));
            } else {
                assert(!cent_exact(d));
                assert(cents == q || cents == q + 1);
                assert(q * p == p * q && (q + 1) * p == p * q + p) by (nonlinear_arith);
                assert(cents * p != u);
            }
        } else {
            let m = -u;
            vstd::arithmetic::div_mod::lemma_fundamental_div_mod(m, p);
            vstd::arithmetic::div_mod::lemma_mod_bound(m, p);
            let q = m / p;
            let r = m % p;
            assert(m == p * q + r);
            assert(cents == -rhe_nonneg(m, p));
            // the remainder of the negative mantissa, for `cent_exact`
            vstd::arithmetic::div_mod::lemma_fundamental_div_mod(u, p);
            vstd::arithmetic::div_mod::lemma_mod_bound(u, p);
            let r2 = u % p;
            if r == 0 {
                assert(u == p * (-q)) by (nonlinear_arith)
                    requires
                        u == -m && m == p * q + r && r == 0,
                ;
                vstd::arithmetic::div_mod::lemma_fundamental_div_mod_converse_mod(u, p, -q, 0);
                assert(r2 == 0);
                assert(cent_exact(d));
                assert(cents == -q);
                assert((-q) * p == -(p * q)) by (nonlinear_arith);
                assert(cents * p == u);
            } else {
                assert(u == p * (-q - 1) + (p - r)) by (nonlinear_arith)
                    requires
                        u == -m && m == p * q + r,
                ;
                assert((-q - 1) * p + (p - r) == p * (-q - 1) + (p - r)) by (nonlinear_arith);
                vstd::arithmetic::div_mod::lemma_fundamental_div_mod_converse_mod(
                    u,
                    p,
                    -q - 1,
                    p - r,
                );
                assert(r2 == p - r);
                assert(r2 != 0);
                assert(!cent_exact(d));
                assert(cents == -q || cents == -q - 1);
                assert((-q) * p == -(p * q) && (-q - 1) * p == -(p * q) - p) by (nonlinear_arith);
                assert(cents * p != u);
            }
        }
    }
}

} // verus!
