use fot_engines::staking::{
    check_owner, execute_add_stakers, execute_remove_all_stakers, execute_remove_staker,
    execute_update_config, execute_update_constants, execute_update_last_time, instantiate,
    migrate, query_apy, query_config, query_list_stakers, query_staker, try_claim_reward,
    try_receive, try_unstake, try_withdraw_fot, try_withdraw_gfot, update_total_reward, Config,
    StakerInfo, StakerSet,
};
use fot_engines::types::{Command, ContractError};

const DAY: u64 = 86400;
const FOT: u64 = 100;
const BFOT: u64 = 200;
const GFOT: u64 = 300;
const OWNER: u64 = 1;

fn demo_config(daily: u128) -> Config {
    instantiate(Some(OWNER), 9, FOT, BFOT, GFOT, daily, 0)
}

fn staker(address: u64, amount: u128, reward: u128) -> StakerInfo {
    StakerInfo { address, amount, reward }
}

/// Stake for two accounts (60/40) at time `t0` and fund the reward cache.
fn two_staker_setup(daily: u128, t0: u64) -> (Config, StakerSet) {
    let mut cfg = demo_config(daily);
    let mut set = StakerSet::new();
    try_receive(&mut cfg, &mut set, t0, GFOT, 11, 60).unwrap();
    try_receive(&mut cfg, &mut set, t0, GFOT, 22, 40).unwrap();
    try_receive(&mut cfg, &mut set, t0, FOT, 42, 1_000_000).unwrap();
    (cfg, set)
}

#[test]
fn three_days_accrue_the_exact_pro_rata_split() {
    let t0 = 1_000 * DAY;
    let (mut cfg, mut set) = two_staker_setup(1000, t0);
    update_total_reward(&mut cfg, &mut set, t0 + 3 * DAY, None).unwrap();
    assert_eq!(query_staker(&set, 11).reward, 1800);
    assert_eq!(query_staker(&set, 22).reward, 1200);
    assert_eq!(query_staker(&set, 11).amount, 60);
    assert_eq!(query_staker(&set, 22).amount, 40);
    assert_eq!(cfg.last_time, t0 + 3 * DAY);
}

#[test]
fn accrual_twice_at_the_same_instant_is_a_no_op() {
    let t0 = 1_000 * DAY;
    let (mut cfg, mut set) = two_staker_setup(1000, t0);
    let now = t0 + 2 * DAY + 7;
    update_total_reward(&mut cfg, &mut set, now, None).unwrap();
    let cfg_after = cfg;
    let r11 = query_staker(&set, 11);
    let r22 = query_staker(&set, 22);
    update_total_reward(&mut cfg, &mut set, now, None).unwrap();
    assert_eq!(cfg, cfg_after);
    assert_eq!(query_staker(&set, 11), r11);
    assert_eq!(query_staker(&set, 22), r22);
}

#[test]
fn same_day_accrual_credits_nothing() {
    let t0 = 1_000 * DAY + 100;
    let (mut cfg, mut set) = two_staker_setup(1000, t0);
    // later the same day: floor(now/86400) is unchanged
    update_total_reward(&mut cfg, &mut set, t0 + 86_000, None).unwrap();
    assert_eq!(query_staker(&set, 11).reward, 0);
    assert_eq!(cfg.last_time, t0);
}

#[test]
fn one_second_across_midnight_counts_as_a_day() {
    let mut cfg = demo_config(500);
    let mut set = StakerSet::new();
    try_receive(&mut cfg, &mut set, DAY - 1, GFOT, 11, 10).unwrap();
    update_total_reward(&mut cfg, &mut set, DAY, None).unwrap();
    assert_eq!(query_staker(&set, 11).reward, 500);
}

#[test]
fn rounding_leak_never_exceeds_the_pool() {
    let t0 = 1_000 * DAY;
    let mut cfg = demo_config(100);
    let mut set = StakerSet::new();
    try_receive(&mut cfg, &mut set, t0, GFOT, 11, 1).unwrap();
    try_receive(&mut cfg, &mut set, t0, GFOT, 22, 1).unwrap();
    try_receive(&mut cfg, &mut set, t0, GFOT, 33, 1).unwrap();
    update_total_reward(&mut cfg, &mut set, t0 + DAY, None).unwrap();
    let credited: u128 = query_staker(&set, 11).reward + query_staker(&set, 22).reward
        + query_staker(&set, 33).reward;
    assert_eq!(query_staker(&set, 11).reward, 33);
    assert_eq!(credited, 99);
    assert!(credited <= 100);
}

#[test]
fn claim_pays_zeroes_and_keeps_the_record_while_staked() {
    let t0 = 1_000 * DAY;
    let (mut cfg, mut set) = two_staker_setup(1000, t0);
    let now = t0 + 3 * DAY;
    let resp = try_claim_reward(&mut cfg, &mut set, now, 11).unwrap();
    assert_eq!(
        resp.messages,
        vec![Command::Transfer { token: FOT, to: 11, amount: 1800 }]
    );
    assert_eq!(cfg.fot_amount, 1_000_000 - 1800);
    assert_eq!(query_staker(&set, 11).reward, 0);
    assert_eq!(query_staker(&set, 11).amount, 60);
}

#[test]
fn claim_with_no_record_or_no_reward_fails_unchanged() {
    let t0 = 1_000 * DAY;
    let (mut cfg, mut set) = two_staker_setup(1000, t0);
    let before_cfg = cfg;
    let r = try_claim_reward(&mut cfg, &mut set, t0, 99);
    assert_eq!(r.unwrap_err(), ContractError::NoReward);
    assert_eq!(cfg, before_cfg);
    // a record exists but nothing accrued yet
    let r = try_claim_reward(&mut cfg, &mut set, t0, 11);
    assert_eq!(r.unwrap_err(), ContractError::NoReward);
    assert_eq!(cfg, before_cfg);
    assert_eq!(query_staker(&set, 11).amount, 60);
}

#[test]
fn claim_beyond_the_reward_cache_fails_unchanged() {
    let t0 = 1_000 * DAY;
    let mut cfg = demo_config(1000);
    let mut set = StakerSet::new();
    try_receive(&mut cfg, &mut set, t0, GFOT, 11, 60).unwrap();
    try_receive(&mut cfg, &mut set, t0, FOT, 42, 5).unwrap();  // cache far below the owed reward
    let now = t0 + DAY;
    let r = try_claim_reward(&mut cfg, &mut set, now, 11);
    assert_eq!(r.unwrap_err(), ContractError::NotEnoughFot);
    assert_eq!(cfg.fot_amount, 5);
    assert_eq!(cfg.last_time, t0);
    assert_eq!(query_staker(&set, 11).reward, 0);
}

#[test]
fn unstake_returns_the_stake_and_keeps_a_pending_reward() {
    let t0 = 1_000 * DAY;
    let (mut cfg, mut set) = two_staker_setup(1000, t0);
    let now = t0 + DAY;
    let resp = try_unstake(&mut cfg, &mut set, now, 22).unwrap();
    assert_eq!(
        resp.messages,
        vec![Command::Transfer { token: GFOT, to: 22, amount: 40 }]
    );
    assert_eq!(cfg.gfot_amount, 60);
    // the reward accrued before unstaking stays claimable
    assert_eq!(query_staker(&set, 22).amount, 0);
    assert_eq!(query_staker(&set, 22).reward, 400);
}

#[test]
fn unstake_without_stake_fails() {
    let t0 = 1_000 * DAY;
    let (mut cfg, mut set) = two_staker_setup(1000, t0);
    let r = try_unstake(&mut cfg, &mut set, t0, 99);
    assert_eq!(r.unwrap_err(), ContractError::NoStaked);
}

#[test]
fn unstake_beyond_the_aggregate_cache_fails_unchanged() {
    let t0 = 1_000 * DAY;
    let (mut cfg, mut set) = two_staker_setup(1000, t0);
    // the owner drains the aggregate stake cache; records still show stakes
    try_withdraw_gfot(&mut cfg, &mut set, t0, OWNER).unwrap();
    let before_cfg = cfg;
    let r = try_unstake(&mut cfg, &mut set, t0, 11);
    assert_eq!(r.unwrap_err(), ContractError::NotEnoughGfot);
    assert_eq!(cfg, before_cfg);
    assert_eq!(query_staker(&set, 11).amount, 60);
}

#[test]
fn record_vanishes_when_stake_and_reward_both_reach_zero() {
    let t0 = 1_000 * DAY;
    let (mut cfg, mut set) = two_staker_setup(1000, t0);
    let now = t0 + DAY;
    try_claim_reward(&mut cfg, &mut set, now, 22).unwrap();
    try_unstake(&mut cfg, &mut set, now, 22).unwrap();
    // the direct lookup reads the implicit zero pair, not an error
    assert_eq!(query_staker(&set, 22).amount, 0);
    assert_eq!(query_staker(&set, 22).reward, 0);
    // and no listing contains the address any more
    let listed = query_list_stakers(&set, None, None).stakers;
    assert!(listed.iter().all(|e| e.address != 22));
    assert_eq!(listed.len(), 1);
    assert_eq!(listed[0].address, 11);
}

#[test]
fn unstake_then_claim_deletes_in_the_other_order_too() {
    let t0 = 1_000 * DAY;
    let (mut cfg, mut set) = two_staker_setup(1000, t0);
    let now = t0 + DAY;
    try_unstake(&mut cfg, &mut set, now, 22).unwrap();
    try_claim_reward(&mut cfg, &mut set, now, 22).unwrap();
    let listed = query_list_stakers(&set, None, None).stakers;
    assert!(listed.iter().all(|e| e.address != 22));
}

#[test]
fn fund_deposit_only_fills_the_cache() {
    let mut cfg = demo_config(1000);
    let mut set = StakerSet::new();
    let resp = try_receive(&mut cfg, &mut set, 5, FOT, 42, 777).unwrap();
    assert!(resp.messages.is_empty());
    assert_eq!(cfg.fot_amount, 777);
    assert_eq!(cfg.gfot_amount, 0);
    assert_eq!(cfg.last_time, 0);
}

#[test]
fn staking_rejects_unknown_token_deposit() {
    let mut cfg = demo_config(1000);
    let mut set = StakerSet::new();
    let r = try_receive(&mut cfg, &mut set, 5, 777, 42, 1);
    assert_eq!(r.unwrap_err(), ContractError::UnacceptableToken);
}

#[test]
fn withdraw_fot_drains_the_reward_cache_to_the_owner() {
    let t0 = 1_000 * DAY;
    let (mut cfg, mut set) = two_staker_setup(1000, t0);
    let resp = try_withdraw_fot(&mut cfg, &mut set, t0, OWNER).unwrap();
    assert_eq!(
        resp.messages,
        vec![Command::Transfer { token: FOT, to: OWNER, amount: 1_000_000 }]
    );
    assert_eq!(cfg.fot_amount, 0);
    let r = try_withdraw_fot(&mut cfg, &mut set, t0, 2);
    assert_eq!(r.unwrap_err(), ContractError::Unauthorized);
}

#[test]
fn add_stakers_upserts_and_the_last_entry_wins() {
    let mut cfg = demo_config(1000);
    let mut set = StakerSet::new();
    let batch = vec![staker(5, 10, 0), staker(3, 20, 1), staker(5, 99, 7)];
    execute_add_stakers(&mut cfg, &mut set, OWNER, batch).unwrap();
    assert_eq!(query_staker(&set, 5).amount, 99);
    assert_eq!(query_staker(&set, 5).reward, 7);
    assert_eq!(query_staker(&set, 3).amount, 20);
    let listed = query_list_stakers(&set, None, None).stakers;
    assert_eq!(listed.len(), 2);
    assert_eq!(listed[0].address, 3);
    assert_eq!(listed[1].address, 5);
    let r = execute_add_stakers(&mut cfg, &mut set, 2, vec![staker(9, 1, 1)]);
    assert_eq!(r.unwrap_err(), ContractError::Unauthorized);
}

#[test]
fn remove_staker_drops_one_record() {
    let mut cfg = demo_config(1000);
    let mut set = StakerSet::new();
    execute_add_stakers(&mut cfg, &mut set, OWNER, vec![staker(3, 1, 0), staker(5, 2, 0)])
        .unwrap();
    execute_remove_staker(&mut cfg, &mut set, OWNER, 3).unwrap();
    assert_eq!(query_staker(&set, 3).amount, 0);
    assert_eq!(query_staker(&set, 5).amount, 2);
}

#[test]
fn remove_all_stakers_deletes_everything_after_the_cursor() {
    let mut cfg = demo_config(1000);
    let mut set = StakerSet::new();
    let batch = vec![staker(2, 1, 0), staker(4, 1, 0), staker(6, 1, 0), staker(8, 1, 0)];
    execute_add_stakers(&mut cfg, &mut set, OWNER, batch).unwrap();
    execute_remove_all_stakers(&mut cfg, &mut set, OWNER, Some(4), None).unwrap();
    let listed = query_list_stakers(&set, None, None).stakers;
    assert_eq!(listed.len(), 2);
    assert_eq!(listed[0].address, 2);
    assert_eq!(listed[1].address, 4);
    execute_remove_all_stakers(&mut cfg, &mut set, OWNER, None, None).unwrap();
    assert!(query_list_stakers(&set, None, None).stakers.is_empty());
}

#[test]
fn listing_pages_in_address_order_with_cursor_and_limit() {
    let mut cfg = demo_config(1000);
    let mut set = StakerSet::new();
    let mut batch = Vec::new();
    for a in 1..=12u64 {
        batch.push(staker(a, a as u128, 0));
    }
    execute_add_stakers(&mut cfg, &mut set, OWNER, batch).unwrap();
    // default page size is 10
    let page = query_list_stakers(&set, None, None).stakers;
    assert_eq!(page.len(), 10);
    assert_eq!(page[0].address, 1);
    assert_eq!(page[9].address, 10);
    // the cursor is exclusive
    let page = query_list_stakers(&set, Some(10), None).stakers;
    assert_eq!(page.len(), 2);
    assert_eq!(page[0].address, 11);
    // an oversized limit is capped at 30, which covers all twelve here
    let page = query_list_stakers(&set, None, Some(50)).stakers;
    assert_eq!(page.len(), 12);
    let page = query_list_stakers(&set, Some(3), Some(2)).stakers;
    assert_eq!(page.len(), 2);
    assert_eq!(page[0].address, 4);
    assert_eq!(page[1].address, 5);
}

#[test]
fn apy_is_zero_without_stake_and_exact_with() {
    let mut cfg = demo_config(1000);
    cfg.apy_prefix = 2;
    assert_eq!(query_apy(&cfg, 123), 0);
    cfg.gfot_amount = 1_000_000;
    // supply below one MULTIPLE: the rate denominator is exactly 10000
    let expected = 2u128 * 10_000_000_000 * 10_000_000_000 / 10_000 / 1_000_000;
    assert_eq!(query_apy(&cfg, 0), expected);
    assert_eq!(expected, 20_000_000_000);
    // a supply of 50 MULTIPLE raises the denominator to 10050
    let expected = 2u128 * 10_000_000_000 * 10_000_000_000 / 10_050 / 1_000_000;
    assert_eq!(query_apy(&cfg, 50 * 10_000_000_000), expected);
}

#[test]
fn constants_and_last_time_are_owner_gated() {
    let mut cfg = demo_config(1000);
    execute_update_constants(&mut cfg, OWNER, 4321, 9).unwrap();
    assert_eq!(cfg.daily_fot_amount, 4321);
    assert_eq!(cfg.apy_prefix, 9);
    execute_update_last_time(&mut cfg, OWNER, 777).unwrap();
    assert_eq!(cfg.last_time, 777);
    assert_eq!(
        execute_update_constants(&mut cfg, 2, 1, 1).unwrap_err(),
        ContractError::Unauthorized
    );
    assert_eq!(
        execute_update_last_time(&mut cfg, 2, 1).unwrap_err(),
        ContractError::Unauthorized
    );
}

#[test]
fn owner_update_and_freeze() {
    let mut cfg = demo_config(1000);
    assert!(check_owner(&cfg, OWNER).is_ok());
    execute_update_config(&mut cfg, OWNER, None).unwrap();
    assert_eq!(cfg.owner, None);
    assert_eq!(
        execute_update_config(&mut cfg, OWNER, Some(OWNER)).unwrap_err(),
        ContractError::Unauthorized
    );
}

#[test]
fn staking_config_query_reports_every_field() {
    let cfg = demo_config(1000);
    let resp = query_config(&cfg);
    assert_eq!(resp.owner, Some(OWNER));
    assert_eq!(resp.fot_token_address, FOT);
    assert_eq!(resp.bfot_token_address, BFOT);
    assert_eq!(resp.gfot_token_address, GFOT);
    assert_eq!(resp.fot_amount, 0);
    assert_eq!(resp.gfot_amount, 0);
    assert_eq!(resp.last_time, 0);
    assert_eq!(resp.daily_fot_amount, 1000);
    assert_eq!(resp.apy_prefix, 0);
}

#[test]
fn staking_migrate_accepts_only_its_own_identity() {
    assert!(migrate("gfotstaking".to_string()).is_ok());
    let r = migrate("staking".to_string());
    match r {
        Err(ContractError::CannotMigrate { previous_contract }) => {
            assert_eq!(previous_contract, "staking");
        },
        other => panic!("unexpected result: {:?}", other),
    }
}

#[test]
fn accrual_with_no_stakers_only_moves_the_baseline() {
    let mut cfg = demo_config(1000);
    let mut set = StakerSet::new();
    let t0 = 1_000 * DAY;
    cfg.last_time = t0;
    update_total_reward(&mut cfg, &mut set, t0 + 2 * DAY, None).unwrap();
    assert_eq!(cfg.last_time, t0 + 2 * DAY);
    assert!(query_list_stakers(&set, None, None).stakers.is_empty());
}

#[test]
fn staking_twice_merges_into_one_record() {
    let t0 = 1_000 * DAY;
    let mut cfg = demo_config(1000);
    let mut set = StakerSet::new();
    try_receive(&mut cfg, &mut set, t0, GFOT, 11, 30).unwrap();
    try_receive(&mut cfg, &mut set, t0, GFOT, 11, 12).unwrap();
    assert_eq!(query_staker(&set, 11).amount, 42);
    assert_eq!(cfg.gfot_amount, 42);
    assert_eq!(query_list_stakers(&set, None, None).stakers.len(), 1);
}

#[test]
fn partial_accrual_only_credits_past_the_cursor() {
    let t0 = 1_000 * DAY;
    let mut cfg = demo_config(1000);
    let mut set = StakerSet::new();
    try_receive(&mut cfg, &mut set, t0, GFOT, 11, 50).unwrap();
    try_receive(&mut cfg, &mut set, t0, GFOT, 22, 50).unwrap();
    // administrative partial run: only addresses beyond 11 are covered
    update_total_reward(&mut cfg, &mut set, t0 + DAY, Some(11)).unwrap();
    assert_eq!(query_staker(&set, 11).reward, 0);
    assert_eq!(query_staker(&set, 22).reward, 1000);
}
