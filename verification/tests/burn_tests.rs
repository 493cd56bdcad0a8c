use fot_engines::burn::{
    calc_bfot_amount, calc_fot_rate, check_owner, compute_payout, execute_update_config,
    instantiate, migrate, query_config, try_receive, try_withdraw_all, Config, FOT_STEP,
};
use fot_engines::types::{Command, ContractError};

const STEP: u128 = FOT_STEP;

fn demo_config() -> Config {
    instantiate(Some(1), 9, 100, 200)
}

#[test]
fn rate_at_low_supply_is_109() {
    assert_eq!(calc_fot_rate(1), 109);
    assert_eq!(calc_fot_rate(STEP), 109);
}

#[test]
fn rate_steps_down_at_bracket_boundaries() {
    assert_eq!(calc_fot_rate(STEP + 1), 108);
    assert_eq!(calc_fot_rate(2 * STEP), 108);
    assert_eq!(calc_fot_rate(25 * STEP / 10), 107);
    assert_eq!(calc_fot_rate(110 * STEP), 0);
}

#[test]
fn bfot_amount_is_exact_product() {
    assert_eq!(calc_bfot_amount(12345, 107), 12345 * 107);
    assert_eq!(calc_bfot_amount(0, 109), 0);
}

#[test]
fn payout_within_one_bracket_is_flat() {
    // supply 2.5 steps: the current bracket has 0.5 steps of capacity at rate 107
    let supply = 25 * STEP / 10;
    let deposit = 1_000_000_000_000_000u128;
    assert_eq!(compute_payout(supply, deposit), deposit * 107);
}

#[test]
fn payout_straddles_three_brackets() {
    // supply 2.5 steps, deposit the whole supply: 0.5 steps at 107, one step
    // at 108, one step at 109
    let supply = 25 * STEP / 10;
    let expected = (STEP / 2) * 107 + STEP * 108 + STEP * 109;
    assert_eq!(compute_payout(supply, supply), expected);
    assert_eq!(expected, 2_705_000_000_000_000_000);
}

#[test]
fn payout_straddles_two_brackets() {
    let supply = 25 * STEP / 10;
    let deposit = 15 * STEP / 10;
    assert_eq!(compute_payout(supply, deposit), (STEP / 2) * 107 + STEP * 108);
}

#[test]
fn payout_of_zero_is_zero() {
    assert_eq!(compute_payout(3 * STEP, 0), 0);
}

#[test]
fn convert_moves_totals_and_queues_transfer_and_burn() {
    let mut cfg = demo_config();
    cfg.bfot_current_amount = 10_000_000_000_000_000_000;
    let supply = 25 * STEP / 10;
    let deposit = 1_000_000_000_000_000u128;
    let resp = try_receive(&mut cfg, 100, 42, deposit, supply).unwrap();
    let payout = deposit * 107;
    assert_eq!(
        resp.messages,
        vec![
            Command::Transfer { token: 200, to: 42, amount: payout },
            Command::Burn { token: 100, amount: deposit },
        ]
    );
    assert_eq!(cfg.fot_burn_amount, deposit);
    assert_eq!(cfg.bfot_sent_amount, payout);
    assert_eq!(cfg.bfot_current_amount, 10_000_000_000_000_000_000 - payout);
}

#[test]
fn convert_fails_without_reserve_and_changes_nothing() {
    let mut cfg = demo_config();
    cfg.bfot_current_amount = 10;
    let before = cfg;
    let r = try_receive(&mut cfg, 100, 42, 1_000_000, 3 * STEP);
    assert_eq!(r.unwrap_err(), ContractError::NotEnoughBfot);
    assert_eq!(cfg, before);
}

#[test]
fn bfot_deposit_funds_the_cache_without_commands() {
    let mut cfg = demo_config();
    let resp = try_receive(&mut cfg, 200, 42, 5555, 3 * STEP).unwrap();
    assert!(resp.messages.is_empty());
    assert_eq!(cfg.bfot_current_amount, 5555);
    assert_eq!(cfg.fot_burn_amount, 0);
}

#[test]
fn burn_rejects_unknown_token_deposit() {
    let mut cfg = demo_config();
    let before = cfg;
    let r = try_receive(&mut cfg, 777, 42, 5555, 3 * STEP);
    assert_eq!(r.unwrap_err(), ContractError::UnacceptableToken);
    assert_eq!(cfg, before);
}

#[test]
fn instantiate_defaults_owner_to_sender() {
    let cfg = instantiate(None, 9, 100, 200);
    assert_eq!(cfg.owner, Some(9));
    let cfg2 = instantiate(Some(4), 9, 100, 200);
    assert_eq!(cfg2.owner, Some(4));
    assert_eq!(cfg2.fot_burn_amount, 0);
    assert_eq!(cfg2.bfot_sent_amount, 0);
    assert_eq!(cfg2.bfot_current_amount, 0);
}

#[test]
fn burn_owner_check_gates_on_exact_owner() {
    let cfg = demo_config();
    assert!(check_owner(&cfg, 1).is_ok());
    assert_eq!(check_owner(&cfg, 2).unwrap_err(), ContractError::Unauthorized);
    let mut frozen = cfg;
    frozen.owner = None;
    assert_eq!(check_owner(&frozen, 1).unwrap_err(), ContractError::Unauthorized);
}

#[test]
fn update_config_replaces_or_clears_the_owner() {
    let mut cfg = demo_config();
    execute_update_config(&mut cfg, 1, Some(7)).unwrap();
    assert_eq!(cfg.owner, Some(7));
    execute_update_config(&mut cfg, 7, None).unwrap();
    assert_eq!(cfg.owner, None);
    // frozen: nobody may administrate any more
    let r = execute_update_config(&mut cfg, 7, Some(7));
    assert_eq!(r.unwrap_err(), ContractError::Unauthorized);
}

#[test]
fn withdraw_all_zeroes_the_cache_and_pays_the_owner() {
    let mut cfg = demo_config();
    cfg.bfot_current_amount = 888;
    let resp = try_withdraw_all(&mut cfg, 1).unwrap();
    assert_eq!(
        resp.messages,
        vec![Command::Transfer { token: 200, to: 1, amount: 888 }]
    );
    assert_eq!(cfg.bfot_current_amount, 0);
    let r = try_withdraw_all(&mut cfg, 3);
    assert_eq!(r.unwrap_err(), ContractError::Unauthorized);
}

#[test]
fn burn_config_query_reports_every_field() {
    let mut cfg = demo_config();
    cfg.fot_burn_amount = 5;
    cfg.bfot_sent_amount = 6;
    cfg.bfot_current_amount = 7;
    let resp = query_config(&cfg);
    assert_eq!(resp.owner, Some(1));
    assert_eq!(resp.fot_token_address, 100);
    assert_eq!(resp.bfot_token_address, 200);
    assert_eq!(resp.fot_burn_amount, 5);
    assert_eq!(resp.bfot_sent_amount, 6);
    assert_eq!(resp.bfot_current_amount, 7);
}

#[test]
fn burn_migrate_accepts_only_its_own_identity() {
    assert!(migrate("fotburn".to_string()).is_ok());
    let r = migrate("somethingelse".to_string());
    match r {
        Err(ContractError::CannotMigrate { previous_contract }) => {
            assert_eq!(previous_contract, "somethingelse");
        },
        other => panic!("unexpected result: {:?}", other),
    }
}
