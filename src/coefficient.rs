use vstd::prelude::*;
use vstd::arithmetic::div_mod::{
    lemma_div_by_multiple, lemma_div_is_ordered, lemma_div_is_ordered_by_denominator,
};

verus! {

/// Largest number of fractional digits a [`Coefficient`] may carry.
pub const MAX_SCALE: u32 = 19;

/// The global severity multiplier, held exactly as a signed decimal:
/// `digits / 10^scale`, negated when `negative` is set.
#[derive(Debug, Clone, Copy)]
pub struct Coefficient {
    pub negative: bool,
    pub digits: u64,
    pub scale: u32,
}

pub open spec fn pow10(n: nat) -> nat
    decreases n,
{
    if n == 0 { 1 } else { 10 * pow10((n - 1) as nat) }
}

/// Smallest integer not below `num / den`.
pub open spec fn ceil_div(num: nat, den: nat) -> nat
    recommends den > 0,
{
    if num % den == 0 { num / den } else { num / den + 1 }
}

impl Coefficient {
    pub open spec fn wf(&self) -> bool {
        self.scale <= MAX_SCALE
    }

    /// The neutral coefficient, one.
    pub fn one() -> (r: Coefficient)
        ensures
            r.wf(),
            !r.negative,
            r.digits == 1,
            r.scale == 0,
    {
        Coefficient { negative: false, digits: 1, scale: 0 }
    }
}

/// `ceil(base * severity * coefficient * faults_current)` as an unsigned
/// amount: a negative product yields zero and a product beyond `u64::MAX`
/// yields `u64::MAX`.
pub open spec fn amount_formula(base: u64, severity: u16, c: Coefficient, faults_current: u32) -> int {
    if c.negative {
        0
    } else {
        let num = (base * severity * c.digits * faults_current) as nat;
        let up = ceil_div(num, pow10(c.scale as nat));
        if up > u64::MAX { u64::MAX as int } else { up as int }
    }
}

proof fn lemma_pow10_positive(n: nat)
    ensures
        pow10(n) >= 1,
    decreases n,
{
    if n > 0 {
        lemma_pow10_positive((n - 1) as nat);
    }
}

proof fn lemma_pow10_monotone(i: nat, j: nat)
    requires
        i <= j,
    ensures
        pow10(i) <= pow10(j),
    decreases j,
{
    if i < j {
        lemma_pow10_monotone(i, (j - 1) as nat);
        lemma_pow10_positive((j - 1) as nat);
    }
}

proof fn lemma_pow10_max()
    ensures
        pow10(MAX_SCALE as nat) == 10_000_000_000_000_000_000,
{
    reveal_with_fuel(pow10, 20);
}

/// `10^n` for the scales a coefficient may have.
fn pow10_exec(n: u32) -> (r: u64)
    requires
        n <= MAX_SCALE,
    ensures
        r == pow10(n as nat),
{
    let mut r: u64 = 1;
    let mut i: u32 = 0;
    while i < n
        invariant
            i <= n,
            n <= MAX_SCALE,
            r == pow10(i as nat),
        decreases n - i,
    {
        proof {
            lemma_pow10_monotone((i + 1) as nat, MAX_SCALE as nat);
            lemma_pow10_max();
        }
        r = r * 10;
        i = i + 1;
    }
    r
}

/// Scales a punishment's base amount by the fault's severity, the global
/// coefficient and the user's fault count in the current period, rounding
/// up.
pub fn scaled_amount(base: u64, severity: u16, coefficient: Coefficient, faults_current: u32) -> (r: u64)
    requires
        coefficient.wf(),
    ensures
        r == amount_formula(base, severity, coefficient, faults_current),
{
    if coefficient.negative {
        return 0;
    }
    let den = pow10_exec(coefficient.scale) as u128;
    proof {
        lemma_pow10_positive(coefficient.scale as nat);
        lemma_pow10_monotone(coefficient.scale as nat, MAX_SCALE as nat);
        lemma_pow10_max();
        assert(base * severity <= 0xffff_ffff_ffff_ffffu64 * 0xffffu64) by (nonlinear_arith)
            requires base <= 0xffff_ffff_ffff_ffffu64, severity <= 0xffffu64;
        assert(base * severity * faults_current <= 0xffff_ffff_ffff_ffffu64 * 0xffffu64 * 0xffff_ffffu64)
            by (nonlinear_arith)
            requires
                base * severity <= 0xffff_ffff_ffff_ffffu64 * 0xffffu64,
                faults_current <= 0xffff_ffffu64,
                base * severity >= 0,
        ;
    }
    let p: u128 = (base as u128) * (severity as u128) * (faults_current as u128);
    match p.checked_mul(coefficient.digits as u128) {
        None => {
            proof {
                let num = base * severity * coefficient.digits * faults_current;
                let k: int = 0x1_0000_0000_0000_0000;
                assert(num == p * coefficient.digits) by (nonlinear_arith)
                    requires p == base * severity * faults_current,
                        num == base * severity * coefficient.digits * faults_current;
                assert(k * den <= num) by (nonlinear_arith)
                    requires den < k, num > 0xffff_ffff_ffff_ffff_ffff_ffff_ffff_ffffu128, k == 0x1_0000_0000_0000_0000int;
                lemma_div_is_ordered(k * den, num, den as int);
                lemma_div_by_multiple(k, den as int);
            }
            u64::MAX
        },
        Some(n) => {
            proof {
                assert(n == base * severity * coefficient.digits * faults_current) by (nonlinear_arith)
                    requires p == base * severity * faults_current, n == p * coefficient.digits;
            }
            let q: u128 = if n % den == 0 {
                n / den
            } else {
                proof {
                    assert(den >= 2);
                    lemma_div_is_ordered_by_denominator(n as int, 2, den as int);
                }
                n / den + 1
            };
            if q > u64::MAX as u128 { u64::MAX } else { q as u64 }
        },
    }
}

pub open spec fn is_digit(c: char) -> bool {
    '0' <= c <= '9'
}

pub open spec fn digit_value(c: char) -> nat {
    (c as nat - '0' as nat) as nat
}

/// The digits of `b`, with every '.' left out.
pub open spec fn digits_of(b: Seq<char>) -> Seq<char>
    decreases b.len(),
{
    if b.len() == 0 {
        b
    } else if b.last() == '.' {
        digits_of(b.drop_last())
    } else {
        digits_of(b.drop_last()).push(b.last())
    }
}

/// How many '.' `b` holds.
pub open spec fn dots(b: Seq<char>) -> nat
    decreases b.len(),
{
    if b.len() == 0 {
        0
    } else {
        dots(b.drop_last()) + if b.last() == '.' { 1nat } else { 0nat }
    }
}

/// How many characters follow the last '.' of `b`; zero without one.
pub open spec fn frac_len(b: Seq<char>) -> nat
    decreases b.len(),
{
    if b.len() == 0 || b.last() == '.' {
        0
    } else if dots(b.drop_last()) > 0 {
        frac_len(b.drop_last()) + 1
    } else {
        0
    }
}

/// The number a string of decimal digits denotes.
pub open spec fn numeral(d: Seq<char>) -> nat
    decreases d.len(),
{
    if d.len() == 0 {
        0
    } else {
        numeral(d.drop_last()) * 10 + digit_value(d.last())
    }
}

/// Digits with at most one '.' among them, and at least one digit.
pub open spec fn is_decimal(b: Seq<char>) -> bool {
    &&& forall|i: int| 0 <= i < b.len() ==> is_digit(#[trigger] b[i]) || b[i] == '.'
    &&& dots(b) <= 1
    &&& digits_of(b).len() >= 1
}

pub open spec fn sign_len(s: Seq<char>) -> int {
    if s.len() > 0 && (s[0] == '-' || s[0] == '+') {
        1
    } else {
        0
    }
}

/// The coefficient that the text `s` denotes: an optional sign, then a
/// decimal numeral; `None` where the text is no such numeral or it does not
/// fit a [`Coefficient`].
pub open spec fn coefficient_of(s: Seq<char>) -> Option<Coefficient> {
    let b = s.skip(sign_len(s));
    if is_decimal(b) && numeral(digits_of(b)) <= u64::MAX && frac_len(b) <= MAX_SCALE {
        Some(
            Coefficient {
                negative: sign_len(s) == 1 && s[0] == '-',
                digits: numeral(digits_of(b)) as u64,
                scale: frac_len(b) as u32,
            },
        )
    } else {
        None
    }
}

proof fn lemma_numeral_grows(d: Seq<char>, c: char)
    ensures
        numeral(d.push(c)) >= numeral(d),
        numeral(d.push(c)) == numeral(d) * 10 + digit_value(c),
{
    assert(d.push(c).drop_last() =~= d);
}

/// Once the numeral of a prefix is past `u64::MAX`, so is the whole one.
proof fn lemma_numeral_prefix(b: Seq<char>, i: int)
    requires
        0 <= i <= b.len(),
    ensures
        numeral(digits_of(b.take(i))) <= numeral(digits_of(b)),
    decreases b.len() - i,
{
    if i < b.len() {
        lemma_numeral_prefix(b, i + 1);
        assert(b.take(i + 1).drop_last() =~= b.take(i));
        lemma_numeral_grows(digits_of(b.take(i)), b[i]);
    } else {
        assert(b.take(i) =~= b);
    }
}

impl Coefficient {
    /// Reads a coefficient from its decimal text, such as `"1.5"` or `"-2"`.
    pub fn parse(s: &str) -> (r: Option<Coefficient>)
        ensures
            r == coefficient_of(s@),
            r matches Some(c) ==> c.wf(),
    {
        let n = s.unicode_len();
        let mut start: usize = 0;
        if n > 0 {
            let c0 = s.get_char(0);
            if c0 == '-' || c0 == '+' {
                start = 1;
            }
        }
        let ghost b = s@.skip(start as int);
        let mut i: usize = start;
        let mut acc: u64 = 0;
        let mut overflow = false;
        let mut bad = false;
        let mut n_dots: usize = 0;
        let mut n_digits: usize = 0;
        let mut frac: usize = 0;
        while i < n
            invariant
                start <= i <= n,
                n == s@.len(),
                b == s@.skip(start as int),
                start as int == sign_len(s@),
                bad == exists|j: int| 0 <= j < i - start && !is_digit(#[trigger] b[j]) && b[j] != '.',
                n_dots == dots(b.take(i - start)),
                n_digits == digits_of(b.take(i - start)).len(),
                frac == frac_len(b.take(i - start)),
                !bad ==> overflow == (numeral(digits_of(b.take(i - start))) > u64::MAX),
                !bad && !overflow ==> acc == numeral(digits_of(b.take(i - start))),
                n_dots <= i - start,
                n_digits <= i - start,
                frac <= i - start,
            decreases n - i,
        {
            let c = s.get_char(i);
            let ghost k = i - start;
            proof {
                assert(b[k] == c);
                assert(b.take(k + 1).drop_last() =~= b.take(k));
                assert(b.take(k + 1).last() == c);
                lemma_numeral_grows(digits_of(b.take(k)), c);
            }
            if c == '.' {
                n_dots = n_dots + 1;
                frac = 0;
            } else {
                if n_dots > 0 {
                    frac = frac + 1;
                }
                n_digits = n_digits + 1;
                if !('0' <= c && c <= '9') {
                    bad = true;
                } else if !overflow {
                    let d = (c as u32 - '0' as u32) as u64;
                    if acc > u64::MAX / 10 || (acc == u64::MAX / 10 && d > u64::MAX % 10) {
                        overflow = true;
                    } else {
                        acc = acc * 10 + d;
                    }
                }
            }
            i = i + 1;
        }
        proof {
            assert(b.take(n - start) =~= b);
            assert(b.len() == n - start);
        }
        if bad || n_dots > 1 || n_digits == 0 || overflow || frac > MAX_SCALE as usize {
            None
        } else {
            let negative = start == 1 && s.get_char(0) == '-';
            Some(Coefficient { negative, digits: acc, scale: frac as u32 })
        }
    }
}

} // verus!
