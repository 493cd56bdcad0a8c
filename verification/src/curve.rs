//! Bonding-curve mint engine: deposits of token B (BFOT) are burned to mint
//! token C (GFOT) at a price that rises in discrete brackets as cumulative C
//! minted grows.  Runs of whole brackets are consumed in closed form through
//! a triangular (arithmetic-series) inversion instead of bracket-by-bracket
//! iteration, and the result is proved equal to the one-bracket-at-a-time
//! reference semantics.

use vstd::prelude::*;

verus! {

use crate::types::{Command, ContractError, Response};
use vstd::arithmetic::div_mod::{
    lemma_div_is_ordered,
    lemma_div_multiples_vanish,
    lemma_div_pos_is_pos,
    lemma_fundamental_div_mod,
    lemma_mod_multiples_vanish,
};

/// Price increment between consecutive brackets; also the amount of token C
/// minted for each whole bracket consumed.
pub const STEP_AMOUNT: u128 = 10_000_000_000;

/// Starting price of the curve: `rate` and `left` both begin here.
pub const BFOT_START_AMOUNT: u128 = 100_000_000_000_000;

/// Headroom bound on the curve state: while `rate + input` stays below this,
/// every intermediate product of the advance computation fits in `u128`.
pub const CURVE_INPUT_LIMIT: u128 = 1_000_000_000_000_000_000_000_000_000;

/// A well-formed curve position: the price is a positive multiple of
/// `STEP_AMOUNT` and the remaining capacity of the current bracket is in
/// `(0, rate]`.
pub open spec fn curve_state_wf(rate: int, left: int) -> bool {
    &&& rate % (STEP_AMOUNT as int) == 0
    &&& STEP_AMOUNT as int <= rate
    &&& 0 < left <= rate
}

/// Reference semantics of the curve, consuming a deposit one bracket at a
/// time.  Returns `(rate, left, burned, minted)`: the final price, the final
/// remaining capacity of the current bracket, the token B burned, and the
/// token C minted (each bracket mints `left * STEP_AMOUNT / rate`, truncated).
pub open spec fn spec_curve(rate: int, left: int, input: int) -> (int, int, int, int)
    decreases input,
{
    if input <= 0 || left <= 0 {
        (rate, left, 0, 0)
    } else if left <= input {
        let bracket_minted = left * (STEP_AMOUNT as int) / rate;
        let next = rate + STEP_AMOUNT as int;
        let rec = spec_curve(next, next, input - left);
        (rec.0, rec.1, left + rec.2, bracket_minted + rec.3)
    } else {
        (rate, left - input, input, input * (STEP_AMOUNT as int) / rate)
    }
}

/// Singleton configuration and state of the bonding-curve engine.
#[derive(Clone, Copy, Debug, PartialEq, Eq)]
pub struct Config {
    /// Owner of the engine; `None` freezes every administrative action.
    pub owner: Option<u64>,
    /// Ledger of token B, whose deposits are burned.
    pub bfot_token_address: u64,
    /// Ledger of token C, whose units are minted.
    pub gfot_token_address: u64,
    /// Cumulative token B burned.
    pub bfot_burn_amount: u128,
    /// Cumulative token C minted and sent out.
    pub gfot_sent_amount: u128,
    /// Price of the current bracket, in B per step unit of C.
    pub rate: u128,
    /// Token B still purchasable in the current bracket before the price
    /// rises by one step.
    pub left: u128,
}

/// The configuration invariant: the stored curve position is well formed.
pub open spec fn spec_config_wf(cfg: Config) -> bool {
    curve_state_wf(cfg.rate as int, cfg.left as int)
}

/// The pair `(burned, minted)` that a deposit of `input` produces from the
/// position stored in `cfg`.  The mutating conversion path and the read-only
/// simulation query are both specified against this single function, so the
/// two can never diverge.
pub open spec fn spec_expected(cfg: Config, input: int) -> (int, int) {
    let m = spec_curve(cfg.rate as int, cfg.left as int, input);
    (m.2, m.3)
}

/// The triangular number `0 + 1 + ... + k`.
pub open spec fn spec_triangle(k: int) -> int
    decreases k,
{
    if k <= 0 {
        0
    } else {
        k + spec_triangle(k - 1)
    }
}

/// Token-B cost of consuming `n` whole brackets starting at price `rate`:
/// `rate + (rate + STEP_AMOUNT) + ...`, `n` terms.
pub open spec fn spec_bracket_run_cost(rate: int, n: int) -> int
    decreases n,
{
    if n <= 0 {
        0
    } else {
        rate + spec_bracket_run_cost(rate + STEP_AMOUNT as int, n - 1)
    }
}

/// The product of two consecutive integers is even.
proof fn lemma_consecutive_product_even(k: int)
    requires
        k >= 0,
    ensures
        (k * (k + 1)) % 2 == 0,
    decreases k,
{
    if k == 0 {
    } else {
        lemma_consecutive_product_even(k - 1);
        assert(k * (k + 1) == 2 * k + (k - 1) * k) by (nonlinear_arith);
        lemma_mod_multiples_vanish(k, (k - 1) * k, 2);
    }
}

/// Closed form of the triangular number: `spec_triangle(k) == k * (k + 1) / 2`.
proof fn lemma_triangle_closed_form(k: int)
    requires
        k >= 0,
    ensures
        spec_triangle(k) == k * (k + 1) / 2,
    decreases k,
{
    if k == 0 {
    } else {
        lemma_triangle_closed_form(k - 1);
        let p = (k - 1) * k;
        let q = k * (k + 1);
        lemma_consecutive_product_even(k - 1);
        lemma_consecutive_product_even(k);
        lemma_fundamental_div_mod(p, 2);
        lemma_fundamental_div_mod(q, 2);
        assert(q == p + 2 * k) by (nonlinear_arith)
            requires
                p == (k - 1) * k,
                q == k * (k + 1),
        ;
    }
}

/// A run of `n` brackets starting at a price of at least one step costs at
/// least `n` steps of token B, and never a negative amount.
proof fn lemma_run_cost_lower_bound(rate: int, n: int)
    requires
        rate >= STEP_AMOUNT,
        n >= 0,
    ensures
        spec_bracket_run_cost(rate, n) >= n * STEP_AMOUNT,
        spec_bracket_run_cost(rate, n) >= n * rate,
    decreases n,
{
    let st = STEP_AMOUNT as int;
    if n > 0 {
        lemma_run_cost_lower_bound(rate + st, n - 1);
        let c1 = spec_bracket_run_cost(rate + st, n - 1);
        assert(spec_bracket_run_cost(rate, n) == rate + c1);
        assert(rate + (n - 1) * (rate + st) >= n * rate) by (nonlinear_arith)
            requires
                n >= 1,
                st > 0,
        ;
        assert(rate + (n - 1) * (rate + st) >= n * st) by (nonlinear_arith)
            requires
                n >= 1,
                st > 0,
                rate >= st,
        ;
    } else {
        assert(n * st <= 0) by (nonlinear_arith)
            requires
                n <= 0,
                st > 0,
        ;
        assert(n * rate <= 0) by (nonlinear_arith)
            requires
                n <= 0,
                rate > 0,
        ;
    }
}

/// Closed form of the run cost when the price is the multiple `b` of the
/// step: `n` brackets cost `(n*b + triangle(n-1)) * STEP_AMOUNT`.
proof fn lemma_run_cost_closed_form(b: int, n: int)
    requires
        b >= 1,
        n >= 0,
    ensures
        spec_bracket_run_cost(b * STEP_AMOUNT, n) == (n * b + spec_triangle(n - 1))
            * STEP_AMOUNT,
    decreases n,
{
    if n == 0 {
        assert((0 * b + spec_triangle(-1)) * STEP_AMOUNT == 0) by (nonlinear_arith);
    } else {
        lemma_run_cost_closed_form(b + 1, n - 1);
        assert((b + 1) * STEP_AMOUNT == b * STEP_AMOUNT + STEP_AMOUNT) by (nonlinear_arith);
        assert(spec_triangle(n - 1) == (n - 1) + spec_triangle(n - 2));
        assert(b * STEP_AMOUNT + ((n - 1) * (b + 1) + spec_triangle(n - 2)) * STEP_AMOUNT == (n * b
            + (n - 1) + spec_triangle(n - 2)) * STEP_AMOUNT) by (nonlinear_arith);
    }
}

/// The quadratic inversion of the triangular run cost: if `s` is the integer
/// square root of `4b^2 - 4b + 1 + 8a` with `1 <= b <= a`, then
/// `n = (s - 2b + 1) / 2` is at least one and a run of `n` brackets starting
/// at the multiple `b` of the step costs at most `a` multiples of the step.
proof fn lemma_triangular_inversion(a: int, b: int, s: int)
    requires
        1 <= b <= a,
        s >= 0,
        s * s <= 4 * b * b - 4 * b + 1 + 8 * a,
        (s + 1) * (s + 1) > 4 * b * b - 4 * b + 1 + 8 * a,
    ensures
        s >= 2 * b + 1,
        (s - 2 * b + 1) / 2 >= 1,
        ({
            let n = (s - 2 * b + 1) / 2;
            n * b + spec_triangle(n - 1) <= a
        }),
{
    assert((2 * b + 1) * (2 * b + 1) <= 4 * b * b - 4 * b + 1 + 8 * a) by (nonlinear_arith)
        requires
            b <= a,
    ;
    assert(s >= 2 * b + 1) by (nonlinear_arith)
        requires
            s >= 0,
            b >= 1,
            (s + 1) * (s + 1) > (2 * b + 1) * (2 * b + 1),
    ;
    let n = (s - 2 * b + 1) / 2;
    assert(n >= 1) by {
        lemma_div_is_ordered(2, s - 2 * b + 1, 2);
    }
    // 2n <= s - 2b + 1, so 2n + 2b - 1 <= s; squaring and simplifying gives
    // n^2 + n*(2b - 1) <= 2a.
    lemma_fundamental_div_mod(s - 2 * b + 1, 2);
    assert(2 * n <= s - 2 * b + 1);
    assert(n * n + n * (2 * b - 1) <= 2 * a) by (nonlinear_arith)
        requires
            n >= 1,
            b >= 1,
            2 * n + 2 * b - 1 <= s,
            s * s <= 4 * b * b - 4 * b + 1 + 8 * a,
    ;
    lemma_triangle_closed_form(n - 1);
    // 2 * (n*b + triangle(n-1)) == n^2 + n*(2b - 1)
    let p = (n - 1) * n;
    lemma_consecutive_product_even(n - 1);
    lemma_fundamental_div_mod(p, 2);
    assert(spec_triangle(n - 1) == p / 2);
    assert(2 * (n * b + p / 2) == n * n + n * (2 * b - 1)) by (nonlinear_arith)
        requires
            2 * (p / 2) == p,
            p == (n - 1) * n,
    ;
}

/// Consuming `n` whole brackets in one closed-form jump agrees with `n`
/// rounds of the one-bracket-at-a-time reference semantics: the price
/// advances by `n` steps, exactly the run cost is burned, and exactly `n`
/// step units of token C are minted.
pub proof fn lemma_curve_bracket_run(rate: int, input: int, n: int)
    requires
        curve_state_wf(rate, rate),
        n >= 1,
        spec_bracket_run_cost(rate, n) <= input,
    ensures
        ({
            let cost = spec_bracket_run_cost(rate, n);
            let next = rate + n * STEP_AMOUNT;
            let rec = spec_curve(next, next, input - cost);
            spec_curve(rate, rate, input) == (rec.0, rec.1, cost + rec.2, n * STEP_AMOUNT + rec.3)
        }),
    decreases n,
{
    lemma_run_cost_lower_bound(rate, n);
    assert(n * rate >= rate) by (nonlinear_arith)
        requires
            n >= 1,
            rate > 0,
    ;
    // the bracket being consumed mints exactly one step of token C
    assert(rate * STEP_AMOUNT / rate == STEP_AMOUNT) by {
        lemma_div_multiples_vanish(STEP_AMOUNT as int, rate);
        assert(rate * STEP_AMOUNT == rate * (STEP_AMOUNT as int));
    }
    if n == 1 {
        assert(1 * STEP_AMOUNT == STEP_AMOUNT) by (nonlinear_arith);
    } else {
        lemma_run_cost_lower_bound(rate + STEP_AMOUNT as int, n - 1);
        lemma_curve_bracket_run(rate + STEP_AMOUNT as int, input - rate, n - 1);
        assert(rate + (n - 1) * STEP_AMOUNT + STEP_AMOUNT == rate + n * STEP_AMOUNT)
            by (nonlinear_arith);
        assert(STEP_AMOUNT + (n - 1) * STEP_AMOUNT == n * STEP_AMOUNT) by (nonlinear_arith);
    }
}

/// The mutating conversion path and the read-only simulation can never
/// diverge: for one starting position and input, the burned and minted
/// totals that `try_receive` persists and queues are the same pair of
/// components of the reference semantics that `query_expected_amount`
/// returns.
pub proof fn lemma_convert_agrees_with_preview(cfg: Config, input: u128)
    requires
        spec_config_wf(cfg),
    ensures
        ({
            let m = spec_curve(cfg.rate as int, cfg.left as int, input as int);
            spec_expected(cfg, input as int) == (m.2, m.3)
        }),
{
}

/// Relies on `integer_sqrt::IntegerSquareRoot::integer_sqrt` for `u128`: the
/// floor of the square root of the argument (never panics for an unsigned
/// argument).
#[verifier::external_body]
fn isqrt(x: u128) -> (r: u128)
    ensures
        r as int * r as int <= x as int,
        (r as int + 1) * (r as int + 1) > x as int,
{
    integer_sqrt::IntegerSquareRoot::integer_sqrt(&x)
}

/// A partial slice of `x` units of token B inside a bracket priced `rate`
/// mints at most `x` units of token C.
proof fn lemma_slice_minted_le(x: int, rate: int)
    requires
        0 <= x,
        STEP_AMOUNT <= rate,
    ensures
        0 <= x * STEP_AMOUNT / rate <= x,
{
    assert(0 <= x * STEP_AMOUNT <= x * rate) by (nonlinear_arith)
        requires
            0 <= x,
            0 < STEP_AMOUNT <= rate,
    ;
    lemma_div_is_ordered(x * STEP_AMOUNT, x * rate, rate);
    assert(x * rate == rate * x) by (nonlinear_arith);
    lemma_div_multiples_vanish(x, rate);
    lemma_div_pos_is_pos(x * STEP_AMOUNT, rate);
}

/// What advancing the curve produced: the final position and the totals that
/// moved.
#[derive(Clone, Copy, Debug, PartialEq, Eq)]
pub struct CurveOutcome {
    pub rate: u128,
    pub left: u128,
    pub burned: u128,
    pub minted: u128,
}

/// Advance the curve position `(rate0, left0)` by consuming a deposit of
/// `input` units of token B, in three kinds of moves: fill the rest of the
/// current bracket, jump over a whole run of brackets found in closed form by
/// the triangular inversion, or spend a final partial slice inside one
/// bracket.  The result is proved equal to the one-bracket-at-a-time
/// reference semantics `spec_curve`, so the closed-form jump can never
/// diverge from naive iteration.  The whole deposit is always burned.
pub fn advance_curve(rate0: u128, left0: u128, input: u128) -> (r: CurveOutcome)
    requires
        curve_state_wf(rate0 as int, left0 as int),
        rate0 + input <= CURVE_INPUT_LIMIT,
    ensures
        ({
            let m = spec_curve(rate0 as int, left0 as int, input as int);
            r.rate == m.0 && r.left == m.1 && r.burned == m.2 && r.minted == m.3
        }),
        r.burned == input,
        r.minted <= input,
        curve_state_wf(r.rate as int, r.left as int),
        r.rate >= rate0,
{
    let mut rate = rate0;
    let mut left = left0;
    let mut remaining = input;
    let mut burned: u128 = 0;
    let mut minted: u128 = 0;
    while remaining > 0
        invariant
            curve_state_wf(rate as int, left as int),
            rate + remaining <= rate0 + input + STEP_AMOUNT,
            remaining > 0 && left < STEP_AMOUNT ==> rate + remaining <= rate0 + input,
            rate0 + input <= CURVE_INPUT_LIMIT,
            rate >= rate0,
            burned == input - remaining,
            minted <= burned,
            ({
                let m = spec_curve(rate0 as int, left0 as int, input as int);
                let rec = spec_curve(rate as int, left as int, remaining as int);
                m.0 == rec.0 && m.1 == rec.1 && m.2 == burned + rec.2 && m.3 == minted + rec.3
            }),
        decreases remaining,
    {
        if left <= remaining {
            // consume the rest of the current bracket at its single price
            proof {
                lemma_slice_minted_le(left as int, rate as int);
            }
            let bracket_minted = left * STEP_AMOUNT / rate;
            remaining = remaining - left;
            burned = burned + left;
            minted = minted + bracket_minted;
            rate = rate + STEP_AMOUNT;
            left = rate;
            if left < remaining {
                // jump over the whole run of brackets the rest of the deposit
                // can fill, found in closed form by the triangular inversion
                let a = remaining / STEP_AMOUNT;
                let b = rate / STEP_AMOUNT;
                proof {
                    lemma_fundamental_div_mod(rate as int, STEP_AMOUNT as int);
                    lemma_fundamental_div_mod(remaining as int, STEP_AMOUNT as int);
                    lemma_div_is_ordered(STEP_AMOUNT as int, rate as int, STEP_AMOUNT as int);
                    lemma_div_multiples_vanish(1, STEP_AMOUNT as int);
                    lemma_div_is_ordered(rate as int, remaining as int, STEP_AMOUNT as int);
                    assert(4 * (b as int) * (b as int) <= 4 * 110000000000000001
                        * 110000000000000001) by (nonlinear_arith)
                        requires
                            0 <= b <= 110000000000000001,
                    ;
                    assert(4 * (b as int) * (b as int) >= 4 * (b as int)) by (nonlinear_arith)
                        requires
                            b >= 1,
                    ;
                }
                let disc = 4 * b * b - 4 * b + 1 + 8 * a;
                let sq = isqrt(disc);
                proof {
                    assert(sq as int <= 430000000000000000) by (nonlinear_arith)
                        requires
                            sq as int * sq as int <= disc as int,
                            disc as int <= 4 * 110000000000000001 * 110000000000000001 + 1 + 8
                                * 100000000000000000,
                            sq >= 0,
                    ;
                    lemma_triangular_inversion(a as int, b as int, sq as int);
                }
                let n = (sq - 2 * b + 1) / 2;
                proof {
                    lemma_triangle_closed_form(n as int - 1);
                    assert((n as int - 1) * (n as int) == n as int * (n as int - 1))
                        by (nonlinear_arith);
                    assert(n as int * (b as int) >= n as int) by (nonlinear_arith)
                        requires
                            n >= 1,
                            b >= 1,
                    ;
                    assert(spec_triangle(n as int - 1) >= 0);
                    // hence n <= n*b + triangle(n-1) <= a
                    assert(n as int * (n as int - 1) <= 100000000000000000 * 100000000000000000)
                        by (nonlinear_arith)
                        requires
                            1 <= n <= 100000000000000000,
                    ;
                    lemma_run_cost_closed_form(b as int, n as int);
                    lemma_run_cost_lower_bound(rate as int, n as int);
                    assert((n as int * b as int + spec_triangle(n as int - 1)) * (STEP_AMOUNT as int)
                        <= a as int * (STEP_AMOUNT as int)) by (nonlinear_arith)
                        requires
                            n as int * b as int + spec_triangle(n as int - 1) <= a as int,
                            STEP_AMOUNT as int > 0,
                    ;
                    assert(a as int * (STEP_AMOUNT as int) == STEP_AMOUNT as int * (a as int))
                        by (nonlinear_arith);
                    assert(spec_bracket_run_cost(rate as int, n as int) <= remaining as int);
                    lemma_curve_bracket_run(rate as int, remaining as int, n as int);
                    assert(STEP_AMOUNT as int * (n as int) == n as int * (STEP_AMOUNT as int))
                        by (nonlinear_arith);
                    lemma_mod_multiples_vanish(n as int, rate as int, STEP_AMOUNT as int);
                }
                let run_minted = n * STEP_AMOUNT;
                rate = rate + run_minted;
                left = rate;
                let bfot_sum = n * b + n * (n - 1) / 2;
                let bfot_amount = bfot_sum * STEP_AMOUNT;
                burned = burned + bfot_amount;
                minted = minted + run_minted;
                remaining = remaining - bfot_amount;
            }
        } else {
            // the rest of the deposit fits inside the current bracket
            proof {
                lemma_slice_minted_le(remaining as int, rate as int);
            }
            let slice_minted = remaining * STEP_AMOUNT / rate;
            left = left - remaining;
            burned = burned + remaining;
            minted = minted + slice_minted;
            remaining = 0;
        }
    }
    CurveOutcome { rate, left, burned, minted }
}

/// Payload a depositor may attach to a deposit notification; the engine
/// routes on the sending ledger, not on this payload.
#[derive(Clone, Copy, Debug, PartialEq, Eq)]
pub enum ReceiveMsg {
    Fot {},
    Bfot {},
}

/// Argument of the migration hook.
#[derive(Clone, Copy, Debug, PartialEq, Eq)]
pub struct MigrateMsg {}

/// Snapshot of the configuration returned by the read-only config query.
#[derive(Clone, Copy, Debug, PartialEq, Eq)]
pub struct ConfigResponse {
    pub owner: Option<u64>,
    pub bfot_token_address: u64,
    pub gfot_token_address: u64,
    pub bfot_burn_amount: u128,
    pub gfot_sent_amount: u128,
    pub bfot_expected_amount: u128,
    pub rate: u128,
    pub left: u128,
}

/// The simulated outcome of a deposit, returned by the read-only query.
#[derive(Clone, Copy, Debug, PartialEq, Eq)]
pub struct ExpectedAmountResponse {
    pub bfot_burn_amount: u128,
    pub gfot_send_amount: u128,
}

/// Initial state of the engine: the owner defaults to the instantiating
/// caller, the curve starts at its fixed start price with a whole bracket
/// left, and the token-C ledger address starts as the token-B address until
/// an owner points it elsewhere.
pub fn instantiate(owner: Option<u64>, sender: u64, bfot_token_address: u64) -> (cfg: Config)
    ensures
        cfg.owner == Some(
            match owner {
                Some(o) => o,
                None => sender,
            },
        ),
        cfg.bfot_token_address == bfot_token_address,
        cfg.gfot_token_address == bfot_token_address,
        cfg.bfot_burn_amount == 0,
        cfg.gfot_sent_amount == 0,
        cfg.rate == BFOT_START_AMOUNT,
        cfg.left == BFOT_START_AMOUNT,
        spec_config_wf(cfg),
{
    let resolved_owner = match owner {
        Some(o) => o,
        None => sender,
    };
    Config {
        owner: Some(resolved_owner),
        bfot_token_address,
        gfot_token_address: bfot_token_address,
        bfot_burn_amount: 0,
        gfot_sent_amount: 0,
        rate: BFOT_START_AMOUNT,
        left: BFOT_START_AMOUNT,
    }
}

/// A deposit notification.  A deposit of token B advances the curve: the new
/// position and running totals are persisted, a mint of token C to the
/// depositor is queued if anything was minted, and a burn of the deposited B
/// is queued if anything was burned.  A deposit from any other ledger is
/// rejected with the state unchanged.
pub fn try_receive(cfg: &mut Config, sender: u64, depositor: u64, amount: u128) -> (r: Result<
    Response,
    ContractError,
>)
    requires
        sender == old(cfg).bfot_token_address ==> {
            &&& spec_config_wf(*old(cfg))
            &&& old(cfg).rate + amount <= CURVE_INPUT_LIMIT
            &&& old(cfg).bfot_burn_amount + amount <= u128::MAX
            &&& old(cfg).gfot_sent_amount + spec_expected(*old(cfg), amount as int).1 <= u128::MAX
        },
    ensures
        sender == old(cfg).bfot_token_address ==> {
            let m = spec_curve(old(cfg).rate as int, old(cfg).left as int, amount as int);
            let burned = spec_expected(*old(cfg), amount as int).0;
            let minted = spec_expected(*old(cfg), amount as int).1;
            &&& final(cfg).owner == old(cfg).owner
            &&& final(cfg).bfot_token_address == old(cfg).bfot_token_address
            &&& final(cfg).gfot_token_address == old(cfg).gfot_token_address
            &&& final(cfg).rate == m.0
            &&& final(cfg).left == m.1
            &&& final(cfg).bfot_burn_amount == old(cfg).bfot_burn_amount + burned
            &&& final(cfg).gfot_sent_amount == old(cfg).gfot_sent_amount + minted
            &&& spec_config_wf(*final(cfg))
            &&& r matches Ok(resp) && resp.messages@ == {
                let mint_part: Seq<Command> = if minted > 0 {
                    seq![
                        (Command::Mint {
                            token: old(cfg).gfot_token_address,
                            to: depositor,
                            amount: minted as u128,
                        }),
                    ]
                } else {
                    Seq::empty()
                };
                let burn_part: Seq<Command> = if burned > 0 {
                    seq![
                        (Command::Burn {
                            token: old(cfg).bfot_token_address,
                            amount: burned as u128,
                        }),
                    ]
                } else {
                    Seq::empty()
                };
                mint_part + burn_part
            }
        },
        sender != old(cfg).bfot_token_address ==> {
            &&& r == Err::<Response, ContractError>(ContractError::UnacceptableToken)
            &&& *final(cfg) == *old(cfg)
        },
{
    if sender == cfg.bfot_token_address {
        let outcome = advance_curve(cfg.rate, cfg.left, amount);
        cfg.rate = outcome.rate;
        cfg.left = outcome.left;
        cfg.gfot_sent_amount = cfg.gfot_sent_amount + outcome.minted;
        cfg.bfot_burn_amount = cfg.bfot_burn_amount + outcome.burned;
        let mut messages: Vec<Command> = Vec::new();
        if outcome.minted > 0 {
            messages.push(Command::Mint {
                token: cfg.gfot_token_address,
                to: depositor,
                amount: outcome.minted,
            });
        }
        if outcome.burned > 0 {
            messages.push(Command::Burn {
                token: cfg.bfot_token_address,
                amount: outcome.burned,
            });
        }
        proof {
            let minted = spec_expected(*old(cfg), amount as int).1;
            let burned = spec_expected(*old(cfg), amount as int).0;
            let mint_part: Seq<Command> = if minted > 0 {
                seq![
                    (Command::Mint {
                        token: old(cfg).gfot_token_address,
                        to: depositor,
                        amount: minted as u128,
                    }),
                ]
            } else {
                Seq::empty()
            };
            let burn_part: Seq<Command> = if burned > 0 {
                seq![
                    (Command::Burn { token: old(cfg).bfot_token_address, amount: burned as u128 }),
                ]
            } else {
                Seq::empty()
            };
            assert(messages@ =~= mint_part + burn_part);
        }
        Ok(Response { messages })
    } else {
        Err(ContractError::UnacceptableToken)
    }
}

/// Read-only simulation of a deposit: runs the same curve advance against a
/// copy of the current position without persisting anything, so callers can
/// preview an exchange.  Specified against the same `spec_expected` as the
/// mutating path, so the two always return identical figures.
pub fn query_expected_amount(cfg: &Config, bfot_amount: u128) -> (resp: ExpectedAmountResponse)
    requires
        spec_config_wf(*cfg),
        cfg.rate + bfot_amount <= CURVE_INPUT_LIMIT,
    ensures
        resp.bfot_burn_amount == spec_expected(*cfg, bfot_amount as int).0,
        resp.gfot_send_amount == spec_expected(*cfg, bfot_amount as int).1,
        resp.bfot_burn_amount == bfot_amount,
{
    let outcome = advance_curve(cfg.rate, cfg.left, bfot_amount);
    ExpectedAmountResponse { bfot_burn_amount: outcome.burned, gfot_send_amount: outcome.minted }
}

/// Authorization gate for administrative actions: succeeds exactly when an
/// owner is configured and the caller is that owner.
pub fn check_owner(cfg: &Config, sender: u64) -> (r: Result<(), ContractError>)
    ensures
        r is Ok <==> cfg.owner == Some(sender),
        r is Err ==> r == Err::<(), ContractError>(ContractError::Unauthorized),
{
    match cfg.owner {
        None => Err(ContractError::Unauthorized),
        Some(owner) => {
            if sender != owner {
                Err(ContractError::Unauthorized)
            } else {
                Ok(())
            }
        },
    }
}

/// Owner-gated update: always replaces the owner with `new_owner` (clearing
/// it freezes the engine), and points the token-C ledger elsewhere when a new
/// address is given.
pub fn execute_update_config(
    cfg: &mut Config,
    sender: u64,
    new_owner: Option<u64>,
    gfot_token_address: Option<u64>,
) -> (r: Result<Response, ContractError>)
    ensures
        old(cfg).owner == Some(sender) ==> {
            &&& final(cfg).owner == new_owner
            &&& final(cfg).gfot_token_address == (match gfot_token_address {
                Some(a) => a,
                None => old(cfg).gfot_token_address,
            })
            &&& final(cfg).bfot_token_address == old(cfg).bfot_token_address
            &&& final(cfg).bfot_burn_amount == old(cfg).bfot_burn_amount
            &&& final(cfg).gfot_sent_amount == old(cfg).gfot_sent_amount
            &&& final(cfg).rate == old(cfg).rate
            &&& final(cfg).left == old(cfg).left
            &&& r matches Ok(resp) && resp.messages@.len() == 0
        },
        old(cfg).owner != Some(sender) ==> {
            &&& r == Err::<Response, ContractError>(ContractError::Unauthorized)
            &&& *final(cfg) == *old(cfg)
        },
{
    match check_owner(cfg, sender) {
        Err(e) => Err(e),
        Ok(()) => {
            cfg.owner = new_owner;
            if let Some(new_address) = gfot_token_address {
                cfg.gfot_token_address = new_address;
            }
            Ok(Response { messages: Vec::new() })
        },
    }
}

/// Read-only snapshot of the configuration.  The reported
/// `bfot_expected_amount` is the cumulative token C sent plus the curve's
/// start amount.
pub fn query_config(cfg: &Config) -> (resp: ConfigResponse)
    requires
        cfg.gfot_sent_amount + BFOT_START_AMOUNT <= u128::MAX,
    ensures
        resp.owner == cfg.owner,
        resp.bfot_token_address == cfg.bfot_token_address,
        resp.gfot_token_address == cfg.gfot_token_address,
        resp.bfot_burn_amount == cfg.bfot_burn_amount,
        resp.gfot_sent_amount == cfg.gfot_sent_amount,
        resp.bfot_expected_amount == cfg.gfot_sent_amount + BFOT_START_AMOUNT,
        resp.rate == cfg.rate,
        resp.left == cfg.left,
{
    ConfigResponse {
        owner: cfg.owner,
        bfot_token_address: cfg.bfot_token_address,
        gfot_token_address: cfg.gfot_token_address,
        bfot_burn_amount: cfg.bfot_burn_amount,
        gfot_sent_amount: cfg.gfot_sent_amount,
        bfot_expected_amount: cfg.gfot_sent_amount + BFOT_START_AMOUNT,
        rate: cfg.rate,
        left: cfg.left,
    }
}

/// This engine's recorded contract identity.
pub open spec fn spec_contract_name() -> Seq<char> {
    "bfotburn"@
}

/// Migration hook: succeeds exactly when the recorded prior contract
/// identity matches this engine's name.
pub fn migrate(previous_contract: String) -> (r: Result<Response, ContractError>)
    ensures
        previous_contract@ == spec_contract_name() ==> (r matches Ok(resp)
            && resp.messages@.len() == 0),
        previous_contract@ != spec_contract_name() ==> (r matches Err(e)
            && e matches ContractError::CannotMigrate { previous_contract: p }
            && p@ == previous_contract@),
{
    let expected: String = "bfotburn".to_owned();
    if previous_contract == expected {
        Ok(Response { messages: Vec::new() })
    } else {
        Err(ContractError::CannotMigrate { previous_contract })
    }
}

} // verus!
