use rand::Rng;
use vstd::arithmetic::div_mod::{lemma_div_is_ordered, lemma_div_multiples_vanish_quotient};
use vstd::arithmetic::mul::lemma_mul_inequality;
use vstd::prelude::*;

verus! {

/// Delay, in milliseconds, for a request that has already been tried more than
/// `MAX_SCHEDULED_RETRIES` times.
pub const BACKOFF_CAP_MS: i64 = 2851203;

/// Beyond this many prior attempts the delay is the cap, without jitter.
pub const MAX_SCHEDULED_RETRIES: i32 = 19;

/// The jitter added to a delay lies in `[0, JITTER_SPAN_MS)`.
pub const JITTER_SPAN_MS: i64 = 1000;

/// `b` raised to the power `e`.
pub open spec fn power(b: nat, e: nat) -> nat
    decreases e,
{
    if e == 0 {
        1
    } else {
        b * power(b, (e - 1) as nat)
    }
}

/// `1000 * (num / den)^e`, rounded to the nearest integer. The rounding is
/// `floor(x + 1/2)`; for the two ratios used here and exponents up to 19 the
/// exact value never lies half-way between two integers, so the rounding
/// direction of ties does not matter.
pub open spec fn scaled_ratio(num: nat, den: nat, e: nat) -> int
    recommends
        den > 0,
{
    (2000 * power(num, e) + power(den, e)) as int / (2 * power(den, e)) as int
}

/// The delay before jitter: `round(1.52^n * 1000)`, with `1.52 = 38 / 25`.
pub open spec fn backoff_base(n: int) -> int {
    if n >= 0 {
        scaled_ratio(38, 25, n as nat)
    } else {
        scaled_ratio(25, 38, (-n) as nat)
    }
}

/// The delay for a request with `retries` prior attempts and the given jitter.
pub open spec fn backoff_ms(retries: int, jitter: int) -> int {
    if retries > MAX_SCHEDULED_RETRIES {
        BACKOFF_CAP_MS as int
    } else {
        backoff_base(retries) + jitter
    }
}

proof fn lemma_power_positive(b: nat, e: nat)
    requires
        b > 0,
    ensures
        power(b, e) > 0,
    decreases e,
{
    if e > 0 {
        lemma_power_positive(b, (e - 1) as nat);
        lemma_mul_inequality(1, b as int, power(b, (e - 1) as nat) as int);
    }
}

proof fn lemma_power_base_ordered(a: nat, b: nat, e: nat)
    requires
        a <= b,
    ensures
        power(a, e) <= power(b, e),
    decreases e,
{
    if e > 0 {
        let pa = power(a, (e - 1) as nat);
        let pb = power(b, (e - 1) as nat);
        lemma_power_base_ordered(a, b, (e - 1) as nat);
        assert(a * pa <= b * pb) by (nonlinear_arith)
            requires
                a <= b,
                pa <= pb,
        ;
    }
}

proof fn lemma_power_exp_ordered(b: nat, d: nat, e: nat)
    requires
        b > 0,
        d <= e,
    ensures
        power(b, d) <= power(b, e),
    decreases e,
{
    if d < e {
        lemma_power_exp_ordered(b, d, (e - 1) as nat);
        lemma_power_positive(b, (e - 1) as nat);
        lemma_mul_inequality(1, b as int, power(b, (e - 1) as nat) as int);
    }
}

/// One more factor `num / den` moves the rounded value in the direction of the
/// ratio.
proof fn lemma_scaled_ratio_step(num: nat, den: nat, e: nat)
    requires
        num > 0,
        den > 0,
    ensures
        num >= den ==> scaled_ratio(num, den, e) <= scaled_ratio(num, den, e + 1),
        num <= den ==> scaled_ratio(num, den, e + 1) <= scaled_ratio(num, den, e),
{
    let a = 2000 * power(num, e);
    let b = power(den, e);
    lemma_power_positive(den, e);
    assert(power(num, e + 1) == num * power(num, e));
    assert(power(den, e + 1) == den * power(den, e));
    let x = (a + b) as int;
    let d = (2 * b) as int;
    lemma_div_multiples_vanish_quotient(den as int, x, d);
    assert(den * x == den * a + den * b) by (nonlinear_arith)
        requires
            x == a + b,
    ;
    assert(den * d == 2 * (den * b)) by (nonlinear_arith)
        requires
            d == 2 * b,
    ;
    let pe = power(num, e);
    assert(2000 * (num * pe) == num * a) by (nonlinear_arith)
        requires
            a == 2000 * pe,
    ;
    let after = (num * a + den * b) as int;
    let scaled_before = (den * a + den * b) as int;
    assert(scaled_ratio(num, den, e + 1) == after / (den * d));
    assert(scaled_ratio(num, den, e) == scaled_before / (den * d));
    assert(0 < den * d) by (nonlinear_arith)
        requires
            den > 0,
            d > 0,
    ;
    if num >= den {
        lemma_mul_inequality(den as int, num as int, a as int);
        lemma_div_is_ordered(scaled_before, after, den * d);
    }
    if num <= den {
        lemma_mul_inequality(num as int, den as int, a as int);
        lemma_div_is_ordered(after, scaled_before, den * d);
    }
}

proof fn lemma_backoff_base_step(n: int)
    ensures
        backoff_base(n) <= backoff_base(n + 1),
{
    if n >= 0 {
        lemma_scaled_ratio_step(38, 25, n as nat);
        assert((n + 1) as nat == n as nat + 1);
    } else {
        lemma_scaled_ratio_step(25, 38, (-(n + 1)) as nat);
        assert((-n) as nat == (-(n + 1)) as nat + 1);
    }
}

/// The delay before jitter never decreases as the attempt count grows.
pub proof fn lemma_backoff_base_monotonic(n: int, m: int)
    requires
        n <= m,
    ensures
        backoff_base(n) <= backoff_base(m),
    decreases m - n,
{
    if n < m {
        lemma_backoff_base_monotonic(n, m - 1);
        lemma_backoff_base_step(m - 1);
    }
}

proof fn lemma_backoff_base_at_cap()
    ensures
        backoff_base(MAX_SCHEDULED_RETRIES as int) == BACKOFF_CAP_MS,
{
    reveal_with_fuel(power, 20);
    assert(power(38, 19) == 1037261684426834491014632701952nat);
    assert(power(25, 19) == 363797880709171295166015625nat);
    let x: int = 2074523732651549691200560569919625;
    let d: int = 727595761418342590332031250;
    assert(x / d == 2851203) by (nonlinear_arith)
        requires
            x == 2074523732651549691200560569919625,
            d == 727595761418342590332031250,
    ;
}

/// Below the cutoff the delay before jitter is at most the cap.
pub proof fn lemma_backoff_base_bounded(n: int)
    requires
        n <= MAX_SCHEDULED_RETRIES,
    ensures
        0 <= backoff_base(n) <= BACKOFF_CAP_MS,
{
    lemma_backoff_base_monotonic(n, MAX_SCHEDULED_RETRIES as int);
    lemma_backoff_base_at_cap();
    lemma_power_positive(25, n as nat);
    lemma_power_positive(38, (-n) as nat);
}

/// The delay is nondecreasing in the attempt count up to the jitter: a later
/// delay is never shorter than an earlier one by a full jitter span, and no
/// delay exceeds the cap plus the jitter span.
pub proof fn lemma_backoff_monotonic_up_to_jitter(n: int, m: int, j1: int, j2: int)
    requires
        n <= m,
        0 <= j1 < JITTER_SPAN_MS,
        0 <= j2 < JITTER_SPAN_MS,
    ensures
        backoff_ms(n, j1) < backoff_ms(m, j2) + JITTER_SPAN_MS,
        backoff_ms(n, j1) <= BACKOFF_CAP_MS + JITTER_SPAN_MS,
        backoff_ms(m, j2) <= BACKOFF_CAP_MS + JITTER_SPAN_MS,
{
    if n <= MAX_SCHEDULED_RETRIES {
        lemma_backoff_base_bounded(n);
    }
    if m <= MAX_SCHEDULED_RETRIES {
        lemma_backoff_base_bounded(m);
        lemma_backoff_base_monotonic(n, m);
    }
}

/// Powers of the two ratios' terms stay within `38^19` up to the cutoff.
proof fn lemma_power_fits(b: nat, e: nat)
    requires
        0 < b <= 38,
        e <= 19,
    ensures
        power(b, e) <= 1037261684426834491014632701952,
        power(b, e) > 0,
{
    lemma_power_base_ordered(b, 38, e);
    lemma_power_exp_ordered(38, e, 19);
    lemma_power_positive(b, e);
    reveal_with_fuel(power, 20);
}

/// `scaled_ratio(num, den, e)` for the two ratios of the policy.
fn scaled_power_ratio(num: u128, den: u128, e: u32) -> (r: u128)
    requires
        (num == 38 && den == 25) || (num == 25 && den == 38),
        e <= 19,
    ensures
        r == scaled_ratio(num as nat, den as nat, e as nat),
{
    let mut pn: u128 = 1;
    let mut pd: u128 = 1;
    let mut i: u32 = 0;
    while i < e
        invariant
            i <= e <= 19,
            0 < num <= 38,
            0 < den <= 38,
            pn == power(num as nat, i as nat),
            pd == power(den as nat, i as nat),
        decreases e - i,
    {
        proof {
            lemma_power_fits(num as nat, (i + 1) as nat);
            lemma_power_fits(den as nat, (i + 1) as nat);
            assert(power(num as nat, (i + 1) as nat) == num * power(num as nat, i as nat));
            assert(power(den as nat, (i + 1) as nat) == den * power(den as nat, i as nat));
            assert(pn * num == num * pn);
            assert(pd * den == den * pd);
        }
        pn = pn * num;
        pd = pd * den;
        i = i + 1;
    }
    proof {
        lemma_power_fits(num as nat, e as nat);
        lemma_power_fits(den as nat, e as nat);
    }
    (2000 * pn + pd) / (2 * pd)
}

/// The delay for a request with `retries` prior attempts, given the jitter.
pub fn backoff_with_jitter(retries: i32, jitter: i64) -> (r: i64)
    requires
        0 <= jitter < JITTER_SPAN_MS,
    ensures
        r == backoff_ms(retries as int, jitter as int),
{
    if retries > MAX_SCHEDULED_RETRIES {
        return BACKOFF_CAP_MS;
    }
    proof {
        lemma_backoff_base_bounded(retries as int);
    }
    let base: u128 = if retries >= 0 {
        scaled_power_ratio(38, 25, retries as u32)
    } else if retries >= -19 {
        scaled_power_ratio(25, 38, (-retries) as u32)
    } else {
        proof {
            lemma_backoff_base_monotonic(retries as int, -20);
            lemma_backoff_base_vanishes();
        }
        0
    };
    base as i64 + jitter
}

proof fn lemma_backoff_base_vanishes()
    ensures
        backoff_base(-20) == 0,
{
    reveal_with_fuel(power, 21);
    assert(power(38, 20) == 39415944008219710658556042674176nat);
    assert(power(25, 20) == 9094947017729282379150390625nat);
    let x: int = 57605838043678275416856823924176;
    let d: int = 78831888016439421317112085348352;
    assert(x / d == 0) by (nonlinear_arith)
        requires
            x == 57605838043678275416856823924176,
            d == 78831888016439421317112085348352,
    ;
}

/// Relies on rand's `thread_rng().gen_range(0..bound)`: a value drawn from
/// the half-open range, which panics only when the range is empty.
#[verifier::external_body]
fn draw_below(bound: i64) -> (r: i64)
    requires
        bound > 0,
    ensures
        0 <= r < bound,
{
    rand::thread_rng().gen_range(0..bound)
}

/// The delay for a request with `retries` prior attempts, with fresh jitter.
pub fn backoff(retries: i32) -> (r: i64)
    ensures
        retries > MAX_SCHEDULED_RETRIES ==> r == BACKOFF_CAP_MS,
        retries <= MAX_SCHEDULED_RETRIES ==> backoff_base(retries as int) <= r
            < backoff_base(retries as int) + JITTER_SPAN_MS,
{
    let jitter = draw_below(JITTER_SPAN_MS);
    backoff_with_jitter(retries, jitter)
}

/// The delay before the next try of a request with `attempts` prior
/// attempts, with fresh jitter; `None` once it has had more than
/// `MAX_SCHEDULED_RETRIES`, when it is no longer rescheduled.
pub fn retry_delay(attempts: u64) -> (r: Option<i64>)
    ensures
        attempts > MAX_SCHEDULED_RETRIES ==> r is None,
        attempts <= MAX_SCHEDULED_RETRIES ==> (r matches Some(d) && backoff_base(attempts as int) <= d
            < backoff_base(attempts as int) + JITTER_SPAN_MS),
{
    if attempts > MAX_SCHEDULED_RETRIES as u64 {
        None
    } else {
        Some(backoff(attempts as i32))
    }
}

} // verus!
