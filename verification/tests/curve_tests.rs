use fot_engines::curve::{
    advance_curve, check_owner, execute_update_config, instantiate, migrate, query_config,
    query_expected_amount, try_receive, Config, BFOT_START_AMOUNT, STEP_AMOUNT,
};
use fot_engines::types::{Command, ContractError};

const START: u128 = BFOT_START_AMOUNT;
const STEP: u128 = STEP_AMOUNT;

fn demo_config() -> Config {
    // owner 1, token B ledger 300; the token C ledger starts equal to B and
    // is pointed at 400 by the owner
    let mut cfg = instantiate(Some(1), 9, 300);
    execute_update_config(&mut cfg, 1, Some(1), Some(400)).unwrap();
    cfg
}

/// One-bracket-at-a-time simulation of the curve, as a cross-check of the
/// closed-form jump in the library.
fn naive_curve(mut rate: u128, mut left: u128, mut input: u128) -> (u128, u128, u128, u128) {
    let mut burned = 0u128;
    let mut minted = 0u128;
    while input > 0 {
        if left <= input {
            input -= left;
            burned += left;
            minted += left * STEP / rate;
            rate += STEP;
            left = rate;
        } else {
            left -= input;
            burned += input;
            minted += input * STEP / rate;
            input = 0;
        }
    }
    (rate, left, burned, minted)
}

#[test]
fn exact_bracket_deposit_resets_the_bracket() {
    // depositing exactly the remaining bracket consumes it, steps the price
    // up once and leaves a whole fresh bracket
    let out = advance_curve(START, START, START);
    assert_eq!(out.burned, START);
    assert_eq!(out.minted, STEP);
    assert_eq!(out.rate, START + STEP);
    assert_eq!(out.left, START + STEP);
}

#[test]
fn partial_deposit_stays_inside_the_bracket() {
    let out = advance_curve(START, START, STEP);
    assert_eq!(out.burned, STEP);
    assert_eq!(out.minted, STEP * STEP / START);
    assert_eq!(out.rate, START);
    assert_eq!(out.left, START - STEP);
}

#[test]
fn single_unit_deposit() {
    let out = advance_curve(START, START, 1);
    assert_eq!(out.burned, 1);
    assert_eq!(out.minted, 0);
    assert_eq!(out.left, START - 1);
}

#[test]
fn closed_form_jump_equals_naive_iteration() {
    // inputs spanning many whole brackets exercise the quadratic inversion
    let cases: [(u128, u128, u128); 8] = [
        (START, START, 10 * START),
        (START, START, 10 * START + 7),
        (START, 1, 3 * START),
        (START, START - 1, 5 * START + 123_456_789),
        (START + 17 * STEP, 5 * STEP, 40 * START),
        (START, START, 1_000_000_000_000_000_000),
        (START, START, 123_456_789_012_345_678),
        (2 * START, 2 * START, 999 * STEP + 1),
    ];
    for &(rate, left, input) in cases.iter() {
        let out = advance_curve(rate, left, input);
        let (nr, nl, nb, nm) = naive_curve(rate, left, input);
        assert_eq!(out.rate, nr, "rate for input {}", input);
        assert_eq!(out.left, nl, "left for input {}", input);
        assert_eq!(out.burned, nb, "burned for input {}", input);
        assert_eq!(out.minted, nm, "minted for input {}", input);
    }
}

#[test]
fn mutating_path_matches_simulation_query() {
    let inputs: [u128; 7] = [
        1,
        STEP,
        START - 1,
        START,
        START + 1,
        3 * START + 12_345,
        50 * START + 999,
    ];
    for &input in inputs.iter() {
        let mut cfg = demo_config();
        cfg.rate = START + 3 * STEP;
        cfg.left = START / 2;
        let preview = query_expected_amount(&cfg, input);
        let resp = try_receive(&mut cfg, 300, 42, input).unwrap();
        // the queued mint and burn carry exactly the previewed figures
        let mut expected = Vec::new();
        if preview.gfot_send_amount > 0 {
            expected.push(Command::Mint {
                token: 400,
                to: 42,
                amount: preview.gfot_send_amount,
            });
        }
        if preview.bfot_burn_amount > 0 {
            expected.push(Command::Burn { token: 300, amount: preview.bfot_burn_amount });
        }
        assert_eq!(resp.messages, expected, "messages for input {}", input);
        assert_eq!(cfg.bfot_burn_amount, preview.bfot_burn_amount);
        assert_eq!(cfg.gfot_sent_amount, preview.gfot_send_amount);
        assert_eq!(preview.bfot_burn_amount, input);
    }
}

#[test]
fn deposit_of_zero_queues_nothing() {
    let mut cfg = demo_config();
    let resp = try_receive(&mut cfg, 300, 42, 0).unwrap();
    assert!(resp.messages.is_empty());
    assert_eq!(cfg.rate, START);
    assert_eq!(cfg.left, START);
}

#[test]
fn curve_rejects_unknown_token_deposit() {
    let mut cfg = demo_config();
    let before = cfg;
    let r = try_receive(&mut cfg, 777, 42, 100);
    assert_eq!(r.unwrap_err(), ContractError::UnacceptableToken);
    assert_eq!(cfg, before);
}

#[test]
fn instantiate_starts_curve_at_the_fixed_constant() {
    let cfg = instantiate(None, 9, 300);
    assert_eq!(cfg.owner, Some(9));
    assert_eq!(cfg.bfot_token_address, 300);
    assert_eq!(cfg.gfot_token_address, 300);
    assert_eq!(cfg.rate, START);
    assert_eq!(cfg.left, START);
}

#[test]
fn curve_owner_check_gates_on_exact_owner() {
    let cfg = demo_config();
    assert!(check_owner(&cfg, 1).is_ok());
    assert_eq!(check_owner(&cfg, 2).unwrap_err(), ContractError::Unauthorized);
}

#[test]
fn update_config_can_repoint_the_mint_ledger() {
    let mut cfg = demo_config();
    execute_update_config(&mut cfg, 1, Some(1), Some(555)).unwrap();
    assert_eq!(cfg.gfot_token_address, 555);
    execute_update_config(&mut cfg, 1, Some(2), None).unwrap();
    assert_eq!(cfg.owner, Some(2));
    assert_eq!(cfg.gfot_token_address, 555);
    let r = execute_update_config(&mut cfg, 1, Some(1), None);
    assert_eq!(r.unwrap_err(), ContractError::Unauthorized);
}

#[test]
fn config_query_reports_expected_amount_offset() {
    let mut cfg = demo_config();
    cfg.bfot_burn_amount = 11;
    cfg.gfot_sent_amount = 22;
    let resp = query_config(&cfg);
    assert_eq!(resp.bfot_burn_amount, 11);
    assert_eq!(resp.gfot_sent_amount, 22);
    assert_eq!(resp.bfot_expected_amount, 22 + START);
    assert_eq!(resp.rate, START);
    assert_eq!(resp.left, START);
}

#[test]
fn curve_migrate_accepts_only_its_own_identity() {
    assert!(migrate("bfotburn".to_string()).is_ok());
    let r = migrate("fotburn".to_string());
    match r {
        Err(ContractError::CannotMigrate { previous_contract }) => {
            assert_eq!(previous_contract, "fotburn");
        },
        other => panic!("unexpected result: {:?}", other),
    }
}
