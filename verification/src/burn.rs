//! Burn-conversion engine: deposits of token A (FOT) are burned and paid out
//! in token B (BFOT) at a rate that changes in discrete brackets of token A's
//! outstanding supply.

use vstd::prelude::*;

verus! {

use crate::types::{Command, ContractError, Response};

/// Width of one supply bracket of token A: the rate changes by one each time
/// the outstanding supply crosses a multiple of this step.
pub const FOT_STEP: u128 = 10_000_000_000_000_000;

/// Largest outstanding supply of token A at which a deposit can still be
/// priced: above `110 * FOT_STEP` the rate formula would go negative.
pub const FOT_MAX_SUPPLY: u128 = 110 * FOT_STEP;

/// Conversion rate (units of B per unit of A) while token A's outstanding
/// supply is `s`: `110 - ceil(s / FOT_STEP)`, written with
/// `ceil(s / FOT_STEP) == (s - 1) / FOT_STEP + 1` for `s > 0`.
pub open spec fn spec_fot_rate(s: int) -> int {
    110 - ((s - 1) / (FOT_STEP as int) + 1)
}

/// Capacity of the current rate bracket at supply `s`: how much of token A
/// can be burned before the supply crosses the next `FOT_STEP` boundary.
pub open spec fn spec_bracket_capacity(s: int) -> int {
    if s % (FOT_STEP as int) == 0 {
        FOT_STEP as int
    } else {
        s % (FOT_STEP as int)
    }
}

/// Token-B payout for burning `d` units of token A while the outstanding
/// supply is `s`, priced slice by slice: each slice fills the rest of the
/// current bracket (or the rest of the deposit, whichever is smaller) at the
/// single rate of that bracket.
pub open spec fn spec_payout(s: int, d: int) -> int
    decreases d,
{
    if d <= 0 {
        0
    } else {
        let cap = spec_bracket_capacity(s);
        let slice = if cap > d {
            d
        } else {
            cap
        };
        slice * spec_fot_rate(s) + spec_payout(s - slice, d - slice)
    }
}

/// The rate at the supply the deposit sees.
pub fn calc_fot_rate(fot_amount: u128) -> (rate: u128)
    requires
        1 <= fot_amount <= FOT_MAX_SUPPLY,
    ensures
        rate == spec_fot_rate(fot_amount as int),
        rate <= 109,
{
    let step = (fot_amount - 1) / FOT_STEP + 1;
    110 - step
}

/// Token-B amount owed for `fot_amount` units of A priced at `fot_rate`.
pub fn calc_bfot_amount(fot_amount: u128, fot_rate: u128) -> (r: u128)
    requires
        fot_amount as int * fot_rate as int <= u128::MAX as int,
    ensures
        r == fot_amount as int * fot_rate as int,
{
    fot_amount * fot_rate
}

/// The payout never exceeds 109 units of B per unit of A deposited, and is
/// never negative.
pub proof fn lemma_payout_bound(s: int, d: int)
    requires
        0 <= d <= s <= FOT_MAX_SUPPLY,
    ensures
        0 <= spec_payout(s, d) <= 109 * d,
    decreases d,
{
    if d > 0 {
        let cap = spec_bracket_capacity(s);
        let slice = if cap > d {
            d
        } else {
            cap
        };
        let rate = spec_fot_rate(s);
        assert((s - 1) / (FOT_STEP as int) <= 109) by {
            vstd::arithmetic::div_mod::lemma_div_is_ordered(
                s - 1,
                110 * FOT_STEP as int - 1,
                FOT_STEP as int,
            );
        }
        assert((s - 1) / (FOT_STEP as int) >= 0) by {
            vstd::arithmetic::div_mod::lemma_div_pos_is_pos(s - 1, FOT_STEP as int);
        }
        assert(0 <= rate <= 109);
        assert(0 <= slice * rate <= slice * 109) by (nonlinear_arith)
            requires
                0 <= slice,
                0 <= rate <= 109,
        ;
        lemma_payout_bound(s - slice, d - slice);
    }
}

/// A deposit that fits inside the current bracket is paid in full at that
/// bracket's single rate.
pub proof fn lemma_payout_single_bracket(s: int, d: int)
    requires
        1 <= d <= spec_bracket_capacity(s),
    ensures
        spec_payout(s, d) == d * spec_fot_rate(s),
{
    assert(spec_payout(s - d, 0) == 0);
}

/// A deposit that overflows the current bracket splits exactly at the
/// bracket boundary: the rest of the bracket is paid at the current rate and
/// the remainder is priced at the reduced supply.
pub proof fn lemma_payout_spans_brackets(s: int, d: int)
    requires
        spec_bracket_capacity(s) < d,
    ensures
        spec_payout(s, d) == spec_bracket_capacity(s) * spec_fot_rate(s) + spec_payout(
            s - spec_bracket_capacity(s),
            d - spec_bracket_capacity(s),
        ),
{
}

/// Total token-B payout for burning `deposit` units of token A while the
/// outstanding supply is `fot_supply`, processed in slices aligned to the
/// `FOT_STEP` boundaries of the supply so that every slice is priced inside a
/// single bracket.
pub fn compute_payout(fot_supply: u128, deposit: u128) -> (payout: u128)
    requires
        deposit <= fot_supply,
        fot_supply <= FOT_MAX_SUPPLY,
    ensures
        payout == spec_payout(fot_supply as int, deposit as int),
        payout <= 109 * deposit,
{
    let mut payout: u128 = 0;
    let mut amount = deposit;
    let mut fot_amount = fot_supply;
    proof {
        lemma_payout_bound(fot_supply as int, deposit as int);
    }
    while amount > 0
        invariant
            amount <= fot_amount <= FOT_MAX_SUPPLY,
            payout + spec_payout(fot_amount as int, amount as int) == spec_payout(
                fot_supply as int,
                deposit as int,
            ),
            payout <= 109 * (deposit - amount),
            deposit <= FOT_MAX_SUPPLY,
        decreases amount,
    {
        let mut sliceamount = fot_amount % FOT_STEP;
        if sliceamount == 0 {
            sliceamount = FOT_STEP;
        }
        if sliceamount > amount {
            sliceamount = amount;
        }
        proof {
            assert(sliceamount == if spec_bracket_capacity(fot_amount as int) > amount as int {
                amount as int
            } else {
                spec_bracket_capacity(fot_amount as int)
            });
            lemma_payout_bound(fot_amount as int, amount as int);
            lemma_payout_bound(
                fot_amount as int - sliceamount as int,
                amount as int - sliceamount as int,
            );
        }
        let rate = calc_fot_rate(fot_amount);
        assert(sliceamount as int * rate as int <= 109 * sliceamount as int) by (nonlinear_arith)
            requires
                0 <= sliceamount,
                0 <= rate <= 109,
        ;
        payout = payout + calc_bfot_amount(sliceamount, rate);
        fot_amount = fot_amount - sliceamount;
        amount = amount - sliceamount;
    }
    payout
}

/// Singleton configuration and state of the burn-conversion engine.
#[derive(Clone, Copy, Debug, PartialEq, Eq)]
pub struct Config {
    /// Owner of the engine; `None` freezes every administrative action.
    pub owner: Option<u64>,
    /// Ledger of token A, whose deposits are burned.
    pub fot_token_address: u64,
    /// Ledger of token B, whose units are paid out.
    pub bfot_token_address: u64,
    /// Cumulative token A burned.
    pub fot_burn_amount: u128,
    /// Cumulative token B sent out as payouts.
    pub bfot_sent_amount: u128,
    /// Cached token-B balance held by the engine for payouts.
    pub bfot_current_amount: u128,
}

/// Payload a depositor may attach to a deposit notification; the engine
/// routes on the sending ledger, not on this payload.
#[derive(Clone, Copy, Debug, PartialEq, Eq)]
pub enum ReceiveMsg {
    Fot {},
    Bfot {},
}

/// Argument of the migration hook.
#[derive(Clone, Copy, Debug, PartialEq, Eq)]
pub struct MigrateMsg {}

/// Snapshot of the configuration returned by the read-only config query.
#[derive(Clone, Copy, Debug, PartialEq, Eq)]
pub struct ConfigResponse {
    pub owner: Option<u64>,
    pub fot_token_address: u64,
    pub bfot_token_address: u64,
    pub fot_burn_amount: u128,
    pub bfot_sent_amount: u128,
    pub bfot_current_amount: u128,
}

/// Initial state of the engine: the owner defaults to the instantiating
/// caller, and all running totals start at zero.
pub fn instantiate(owner: Option<u64>, sender: u64, fot_token_address: u64, bfot_token_address: u64) -> (cfg: Config)
    ensures
        cfg.owner == Some(
            match owner {
                Some(o) => o,
                None => sender,
            },
        ),
        cfg.fot_token_address == fot_token_address,
        cfg.bfot_token_address == bfot_token_address,
        cfg.fot_burn_amount == 0,
        cfg.bfot_sent_amount == 0,
        cfg.bfot_current_amount == 0,
{
    let resolved_owner = match owner {
        Some(o) => o,
        None => sender,
    };
    Config {
        owner: Some(resolved_owner),
        fot_token_address,
        bfot_token_address,
        fot_burn_amount: 0,
        bfot_sent_amount: 0,
        bfot_current_amount: 0,
    }
}

/// A deposit notification.  A deposit of token A is converted: the payout is
/// priced against the fresh outstanding supply of token A handed in by the
/// caller, the running totals move, and a transfer of B plus a burn of A are
/// queued.  A deposit of token B only refills the cached payout balance.  A
/// deposit from any other ledger is rejected.  On every error the state is
/// unchanged.
pub fn try_receive(
    cfg: &mut Config,
    sender: u64,
    depositor: u64,
    amount: u128,
    fot_total_supply: u128,
) -> (r: Result<Response, ContractError>)
    requires
        sender == old(cfg).fot_token_address ==> {
            &&& amount <= fot_total_supply
            &&& fot_total_supply <= FOT_MAX_SUPPLY
            &&& old(cfg).fot_burn_amount + amount <= u128::MAX
            &&& old(cfg).bfot_sent_amount + spec_payout(fot_total_supply as int, amount as int)
                <= u128::MAX
        },
        sender != old(cfg).fot_token_address && sender == old(cfg).bfot_token_address ==> old(
            cfg,
        ).bfot_current_amount + amount <= u128::MAX,
    ensures
        sender == old(cfg).fot_token_address ==> {
            let payout = spec_payout(fot_total_supply as int, amount as int);
            if old(cfg).bfot_current_amount < payout {
                &&& r == Err::<Response, ContractError>(ContractError::NotEnoughBfot)
                &&& *final(cfg) == *old(cfg)
            } else {
                &&& final(cfg).owner == old(cfg).owner
                &&& final(cfg).fot_token_address == old(cfg).fot_token_address
                &&& final(cfg).bfot_token_address == old(cfg).bfot_token_address
                &&& final(cfg).fot_burn_amount == old(cfg).fot_burn_amount + amount
                &&& final(cfg).bfot_sent_amount == old(cfg).bfot_sent_amount + payout
                &&& final(cfg).bfot_current_amount == old(cfg).bfot_current_amount - payout
                &&& r matches Ok(resp) && resp.messages@ == seq![
                    (Command::Transfer {
                        token: old(cfg).bfot_token_address,
                        to: depositor,
                        amount: payout as u128,
                    }),
                    (Command::Burn { token: old(cfg).fot_token_address, amount: amount }),
                ]
            }
        },
        sender != old(cfg).fot_token_address && sender == old(cfg).bfot_token_address ==> {
            &&& final(cfg).bfot_current_amount == old(cfg).bfot_current_amount + amount
            &&& final(cfg).owner == old(cfg).owner
            &&& final(cfg).fot_token_address == old(cfg).fot_token_address
            &&& final(cfg).bfot_token_address == old(cfg).bfot_token_address
            &&& final(cfg).fot_burn_amount == old(cfg).fot_burn_amount
            &&& final(cfg).bfot_sent_amount == old(cfg).bfot_sent_amount
            &&& r matches Ok(resp) && resp.messages@.len() == 0
        },
        sender != old(cfg).fot_token_address && sender != old(cfg).bfot_token_address ==> {
            &&& r == Err::<Response, ContractError>(ContractError::UnacceptableToken)
            &&& *final(cfg) == *old(cfg)
        },
{
    if sender == cfg.fot_token_address {
        let payout = compute_payout(fot_total_supply, amount);
        if cfg.bfot_current_amount < payout {
            return Err(ContractError::NotEnoughBfot);
        }
        cfg.fot_burn_amount = cfg.fot_burn_amount + amount;
        cfg.bfot_sent_amount = cfg.bfot_sent_amount + payout;
        cfg.bfot_current_amount = cfg.bfot_current_amount - payout;
        let mut messages: Vec<Command> = Vec::new();
        messages.push(Command::Transfer { token: cfg.bfot_token_address, to: depositor, amount: payout });
        messages.push(Command::Burn { token: cfg.fot_token_address, amount });
        assert(messages@ =~= seq![
            (Command::Transfer {
                token: cfg.bfot_token_address,
                to: depositor,
                amount: payout,
            }),
            (Command::Burn { token: cfg.fot_token_address, amount: amount }),
        ]);
        Ok(Response { messages })
    } else if sender == cfg.bfot_token_address {
        cfg.bfot_current_amount = cfg.bfot_current_amount + amount;
        Ok(Response { messages: Vec::new() })
    } else {
        Err(ContractError::UnacceptableToken)
    }
}

/// Authorization gate for administrative actions: succeeds exactly when an
/// owner is configured and the caller is that owner.
pub fn check_owner(cfg: &Config, sender: u64) -> (r: Result<(), ContractError>)
    ensures
        r is Ok <==> cfg.owner == Some(sender),
        r is Err ==> r == Err::<(), ContractError>(ContractError::Unauthorized),
{
    match cfg.owner {
        None => Err(ContractError::Unauthorized),
        Some(owner) => {
            if sender != owner {
                Err(ContractError::Unauthorized)
            } else {
                Ok(())
            }
        },
    }
}

/// Owner-gated replacement of the owner.  Passing `None` clears the owner and
/// freezes the engine for further administrative actions.
pub fn execute_update_config(cfg: &mut Config, sender: u64, new_owner: Option<u64>) -> (r: Result<
    Response,
    ContractError,
>)
    ensures
        old(cfg).owner == Some(sender) ==> {
            &&& final(cfg).owner == new_owner
            &&& final(cfg).fot_token_address == old(cfg).fot_token_address
            &&& final(cfg).bfot_token_address == old(cfg).bfot_token_address
            &&& final(cfg).fot_burn_amount == old(cfg).fot_burn_amount
            &&& final(cfg).bfot_sent_amount == old(cfg).bfot_sent_amount
            &&& final(cfg).bfot_current_amount == old(cfg).bfot_current_amount
            &&& r matches Ok(resp) && resp.messages@.len() == 0
        },
        old(cfg).owner != Some(sender) ==> {
            &&& r == Err::<Response, ContractError>(ContractError::Unauthorized)
            &&& *final(cfg) == *old(cfg)
        },
{
    match check_owner(cfg, sender) {
        Err(e) => Err(e),
        Ok(()) => {
            cfg.owner = new_owner;
            Ok(Response { messages: Vec::new() })
        },
    }
}

/// Owner-gated withdrawal of the whole cached token-B balance to the caller.
pub fn try_withdraw_all(cfg: &mut Config, sender: u64) -> (r: Result<Response, ContractError>)
    ensures
        old(cfg).owner == Some(sender) ==> {
            &&& final(cfg).bfot_current_amount == 0
            &&& final(cfg).owner == old(cfg).owner
            &&& final(cfg).fot_token_address == old(cfg).fot_token_address
            &&& final(cfg).bfot_token_address == old(cfg).bfot_token_address
            &&& final(cfg).fot_burn_amount == old(cfg).fot_burn_amount
            &&& final(cfg).bfot_sent_amount == old(cfg).bfot_sent_amount
            &&& r matches Ok(resp) && resp.messages@ == seq![
                (Command::Transfer {
                    token: old(cfg).bfot_token_address,
                    to: sender,
                    amount: old(cfg).bfot_current_amount,
                }),
            ]
        },
        old(cfg).owner != Some(sender) ==> {
            &&& r == Err::<Response, ContractError>(ContractError::Unauthorized)
            &&& *final(cfg) == *old(cfg)
        },
{
    match check_owner(cfg, sender) {
        Err(e) => Err(e),
        Ok(()) => {
            let bfot_current_amount = cfg.bfot_current_amount;
            cfg.bfot_current_amount = 0;
            let mut messages: Vec<Command> = Vec::new();
            messages.push(Command::Transfer {
                token: cfg.bfot_token_address,
                to: sender,
                amount: bfot_current_amount,
            });
            assert(messages@ =~= seq![
                (Command::Transfer {
                    token: cfg.bfot_token_address,
                    to: sender,
                    amount: bfot_current_amount,
                }),
            ]);
            Ok(Response { messages })
        },
    }
}

/// Read-only snapshot of the configuration.
pub fn query_config(cfg: &Config) -> (resp: ConfigResponse)
    ensures
        resp.owner == cfg.owner,
        resp.fot_token_address == cfg.fot_token_address,
        resp.bfot_token_address == cfg.bfot_token_address,
        resp.fot_burn_amount == cfg.fot_burn_amount,
        resp.bfot_sent_amount == cfg.bfot_sent_amount,
        resp.bfot_current_amount == cfg.bfot_current_amount,
{
    ConfigResponse {
        owner: cfg.owner,
        fot_token_address: cfg.fot_token_address,
        bfot_token_address: cfg.bfot_token_address,
        fot_burn_amount: cfg.fot_burn_amount,
        bfot_sent_amount: cfg.bfot_sent_amount,
        bfot_current_amount: cfg.bfot_current_amount,
    }
}

/// This engine's recorded contract identity.
pub open spec fn spec_contract_name() -> Seq<char> {
    "fotburn"@
}

/// Migration hook: succeeds exactly when the recorded prior contract
/// identity matches this engine's name.
pub fn migrate(previous_contract: String) -> (r: Result<Response, ContractError>)
    ensures
        previous_contract@ == spec_contract_name() ==> (r matches Ok(resp)
            && resp.messages@.len() == 0),
        previous_contract@ != spec_contract_name() ==> (r matches Err(e)
            && e matches ContractError::CannotMigrate { previous_contract: p }
            && p@ == previous_contract@),
{
    let expected: String = "fotburn".to_owned();
    if previous_contract == expected {
        Ok(Response { messages: Vec::new() })
    } else {
        Err(ContractError::CannotMigrate { previous_contract })
    }
}

} // verus!
