//! Staking reward-accrual engine: tracks staked balances of token C (GFOT)
//! and lazily distributes a fixed daily emission of token A (FOT) pro rata
//! across all current stakers.
//!
//! The staker table is kept as a vector of records in strictly ascending
//! address order; an absent address means the implicit `(0, 0)` state, and a
//! record whose staked amount and reward are both zero is deleted rather than
//! persisted.

use vstd::prelude::*;

verus! {

use crate::types::{Command, ContractError, Response};
use vstd::arithmetic::div_mod::{
    lemma_div_is_ordered,
    lemma_div_multiples_vanish,
    lemma_div_pos_is_pos,
    lemma_fundamental_div_mod,
};

/// Seconds in one reward day.
pub const SECONDS_PER_DAY: u64 = 86400;

/// Fixed-point scale of the informational APY query.
pub const MULTIPLE: u128 = 10_000_000_000;

/// Most records one listing query returns.
pub const MAX_LIMIT: u32 = 30;

/// Records one listing query returns when no limit is given.
pub const DEFAULT_LIMIT: u32 = 10;

/// One staker's record: the staked token C and the accrued, unclaimed token A
/// reward.
#[derive(Clone, Copy, Debug, PartialEq, Eq)]
pub struct StakerInfo {
    pub address: u64,
    pub amount: u128,
    pub reward: u128,
}

/// Records are kept in strictly ascending address order, so every address
/// appears at most once.
pub open spec fn stakers_sorted(s: Seq<StakerInfo>) -> bool {
    forall|i: int, j: int| 0 <= i < j < s.len() ==> s[i].address < s[j].address
}

/// The record stored for `address`, if any.
pub open spec fn spec_find(s: Seq<StakerInfo>, address: u64) -> Option<StakerInfo>
    decreases s.len(),
{
    if s.len() == 0 {
        None
    } else if s[0].address == address {
        Some(s[0])
    } else {
        spec_find(s.subrange(1, s.len() as int), address)
    }
}

/// The `(staked, reward)` state of an address: its record if present, and
/// the implicit zero pair otherwise.
pub open spec fn spec_staker_state(s: Seq<StakerInfo>, address: u64) -> (u128, u128) {
    match spec_find(s, address) {
        Some(e) => (e.amount, e.reward),
        None => (0u128, 0u128),
    }
}

/// Whether a record lies strictly after the pagination cursor (every record
/// does when there is no cursor).
pub open spec fn spec_qualifies(e: StakerInfo, start_after: Option<u64>) -> bool {
    match start_after {
        None => true,
        Some(c) => e.address > c,
    }
}

/// Position of the first record strictly after the pagination cursor; in a
/// sorted table everything from this position on qualifies.
pub open spec fn spec_first_after(s: Seq<StakerInfo>, start_after: Option<u64>) -> int
    decreases s.len(),
{
    if s.len() == 0 {
        0
    } else if spec_qualifies(s[0], start_after) {
        0
    } else {
        1 + spec_first_after(s.subrange(1, s.len() as int), start_after)
    }
}

/// Any position that splits the table into a non-qualifying prefix and a
/// qualifying rest is `spec_first_after`.
proof fn lemma_first_after_unique(s: Seq<StakerInfo>, start_after: Option<u64>, i: int)
    requires
        0 <= i <= s.len(),
        forall|j: int| 0 <= j < i ==> !spec_qualifies(s[j], start_after),
        i < s.len() ==> spec_qualifies(s[i], start_after),
    ensures
        spec_first_after(s, start_after) == i,
    decreases s.len(),
{
    if s.len() > 0 {
        if spec_qualifies(s[0], start_after) {
            assert(i == 0);
        } else {
            let sub = s.subrange(1, s.len() as int);
            assert(forall|j: int| 0 <= j < sub.len() ==> sub[j] == s[j + 1]);
            lemma_first_after_unique(sub, start_after, i - 1);
        }
    }
}

/// A found record carries the address it was looked up by.
pub proof fn lemma_find_some_address(s: Seq<StakerInfo>, address: u64)
    requires
        spec_find(s, address) is Some,
    ensures
        spec_find(s, address)->Some_0.address == address,
    decreases s.len(),
{
    if s.len() > 0 && s[0].address != address {
        lemma_find_some_address(s.subrange(1, s.len() as int), address);
    }
}

/// In a sorted table the lookup of the address stored at position `i`
/// returns exactly the record at position `i`.
pub proof fn lemma_find_position(s: Seq<StakerInfo>, i: int)
    requires
        stakers_sorted(s),
        0 <= i < s.len(),
    ensures
        spec_find(s, s[i].address) == Some(s[i]),
    decreases i,
{
    if i > 0 {
        let sub = s.subrange(1, s.len() as int);
        assert(s[0].address < s[i].address);
        assert(sub[i - 1] == s[i]);
        lemma_find_position(sub, i - 1);
    }
}

/// A lookup misses exactly when no record carries the address.
pub proof fn lemma_find_absent(s: Seq<StakerInfo>, address: u64)
    ensures
        (spec_find(s, address) is None) <==> (forall|i: int|
            0 <= i < s.len() ==> s[i].address != address),
    decreases s.len(),
{
    if s.len() > 0 {
        let sub = s.subrange(1, s.len() as int);
        lemma_find_absent(sub, address);
        if s[0].address != address {
            if spec_find(s, address) is None {
                assert forall|i: int| 0 <= i < s.len() implies s[i].address != address by {
                    if i >= 1 {
                        assert(sub[i - 1] == s[i]);
                    }
                }
            } else {
                assert(spec_find(sub, address) is Some);
                let w = choose|k: int| 0 <= k < sub.len() && sub[k].address == address;
                assert(s[w + 1].address == address);
            }
        }
    }
}

/// Two sorted tables that hold the same records for address `b` agree on the
/// lookup of `b`.
proof fn lemma_find_same_records(s: Seq<StakerInfo>, t: Seq<StakerInfo>, b: u64)
    requires
        stakers_sorted(s),
        stakers_sorted(t),
        forall|i: int|
            0 <= i < s.len() && s[i].address == b ==> exists|j: int|
                0 <= j < t.len() && t[j] == s[i],
        forall|j: int|
            0 <= j < t.len() && t[j].address == b ==> exists|i: int|
                0 <= i < s.len() && s[i] == t[j],
    ensures
        spec_find(s, b) == spec_find(t, b),
{
    lemma_find_absent(s, b);
    lemma_find_absent(t, b);
    if exists|i: int| 0 <= i < s.len() && s[i].address == b {
        let i = choose|i: int| 0 <= i < s.len() && s[i].address == b;
        lemma_find_position(s, i);
        let j = choose|j: int| 0 <= j < t.len() && t[j] == s[i];
        lemma_find_position(t, j);
    } else {
        assert forall|j: int| 0 <= j < t.len() implies t[j].address != b by {
            if t[j].address == b {
                let i = choose|i: int| 0 <= i < s.len() && s[i] == t[j];
            }
        }
    }
}

/// The staker table: records in strictly ascending address order.
pub struct StakerSet {
    entries: Vec<StakerInfo>,
}

impl View for StakerSet {
    type V = Seq<StakerInfo>;

    closed spec fn view(&self) -> Seq<StakerInfo> {
        self.entries@
    }
}

impl StakerSet {
    /// An empty table.
    pub fn new() -> (s: Self)
        ensures
            s@.len() == 0,
            stakers_sorted(s@),
    {
        StakerSet { entries: Vec::new() }
    }

    /// Number of stored records.
    pub fn len(&self) -> (n: usize)
        ensures
            n == self@.len(),
    {
        self.entries.len()
    }

    /// The record at a position, in address order.
    pub fn at(&self, i: usize) -> (e: StakerInfo)
        requires
            i < self@.len(),
        ensures
            e == self@[i as int],
    {
        self.entries[i]
    }

    /// An identical copy of the table.
    pub fn duplicate(&self) -> (r: StakerSet)
        ensures
            r@ == self@,
    {
        let mut entries: Vec<StakerInfo> = Vec::new();
        let mut i: usize = 0;
        while i < self.entries.len()
            invariant
                i <= self.entries.len(),
                entries@.len() == i,
                forall|j: int| 0 <= j < i ==> entries@[j] == self.entries@[j],
            decreases self.entries.len() - i,
        {
            entries.push(self.entries[i]);
            i = i + 1;
        }
        proof {
            assert(entries@ =~= self@);
        }
        StakerSet { entries }
    }

    /// First position whose record's address is at least `address`.
    fn position_geq(&self, address: u64) -> (i: usize)
        requires
            stakers_sorted(self@),
        ensures
            i <= self@.len(),
            forall|j: int| 0 <= j < i ==> self@[j].address < address,
            i < self@.len() ==> self@[i as int].address >= address,
    {
        let mut i: usize = 0;
        while i < self.entries.len() && self.entries[i].address < address
            invariant
                i <= self@.len(),
                forall|j: int| 0 <= j < i ==> self@[j].address < address,
            decreases self.entries.len() - i,
        {
            i = i + 1;
        }
        i
    }

    /// First position strictly after the pagination cursor; everything before
    /// it fails the cursor test and everything from it on passes it.
    fn position_after(&self, start_after: Option<u64>) -> (i: usize)
        requires
            stakers_sorted(self@),
        ensures
            i <= self@.len(),
            forall|j: int| 0 <= j < i ==> !spec_qualifies(self@[j], start_after),
            forall|j: int| i <= j < self@.len() ==> spec_qualifies(self@[j], start_after),
            i as int == spec_first_after(self@, start_after),
    {
        match start_after {
            None => {
                proof {
                    lemma_first_after_unique(self@, start_after, 0);
                }
                0
            },
            Some(c) => {
                let mut i: usize = 0;
                while i < self.entries.len() && self.entries[i].address <= c
                    invariant
                        i <= self@.len(),
                        forall|j: int| 0 <= j < i ==> self@[j].address <= c,
                    decreases self.entries.len() - i,
                {
                    i = i + 1;
                }
                assert forall|j: int| i <= j < self@.len() implies spec_qualifies(
                    self@[j],
                    start_after,
                ) by {
                    if j > i {
                        assert(self@[i as int].address < self@[j].address);
                    }
                }
                proof {
                    lemma_first_after_unique(self@, start_after, i as int);
                }
                i
            },
        }
    }

    /// The record stored for `address`, if any.
    pub fn lookup(&self, address: u64) -> (r: Option<StakerInfo>)
        requires
            stakers_sorted(self@),
        ensures
            r == spec_find(self@, address),
    {
        let i = self.position_geq(address);
        if i < self.entries.len() && self.entries[i].address == address {
            proof {
                lemma_find_position(self@, i as int);
            }
            Some(self.entries[i])
        } else {
            proof {
                lemma_find_absent(self@, address);
                assert forall|j: int| 0 <= j < self@.len() implies self@[j].address != address by {
                    if j >= i {
                        if j > i {
                            assert(self@[i as int].address < self@[j].address);
                        }
                    }
                }
            }
            None
        }
    }

    /// Store `(amount, reward)` for `address`, replacing its record or
    /// inserting a new one at its ordered position.
    pub fn save(&mut self, address: u64, amount: u128, reward: u128)
        requires
            stakers_sorted(old(self)@),
        ensures
            stakers_sorted(final(self)@),
            spec_find(final(self)@, address) == Some(StakerInfo { address, amount, reward }),
            forall|b: u64|
                b != address ==> spec_find(final(self)@, b) == spec_find(old(self)@, b),
            old(self)@.len() <= final(self)@.len() <= old(self)@.len() + 1,
    {
        let info = StakerInfo { address, amount, reward };
        let i = self.position_geq(address);
        let ghost s = self@;
        if i < self.entries.len() && self.entries[i].address == address {
            self.entries.remove(i);
            self.entries.insert(i, info);
            proof {
                let t = self@;
                assert(t =~= s.update(i as int, info));
                assert(stakers_sorted(t));
                lemma_find_position(t, i as int);
                assert forall|b: u64| b != address implies spec_find(t, b) == spec_find(s, b) by {
                    assert forall|k: int| 0 <= k < s.len() && s[k].address == b implies exists|j: int|
                        0 <= j < t.len() && t[j] == s[k] by {
                        assert(k != i);
                        assert(t[k] == s[k]);
                    }
                    assert forall|k: int| 0 <= k < t.len() && t[k].address == b implies exists|j: int|
                        0 <= j < s.len() && s[j] == t[k] by {
                        assert(k != i);
                        assert(s[k] == t[k]);
                    }
                    lemma_find_same_records(s, t, b);
                }
            }
        } else {
            self.entries.insert(i, info);
            proof {
                let t = self@;
                assert(t == s.insert(i as int, info));
                assert forall|p: int, q: int| 0 <= p < q < t.len() implies t[p].address
                    < t[q].address by {
                    if i < s.len() {
                        assert(s[i as int].address > address);
                    }
                }
                lemma_find_position(t, i as int);
                assert forall|b: u64| b != address implies spec_find(t, b) == spec_find(s, b) by {
                    assert forall|k: int| 0 <= k < s.len() && s[k].address == b implies exists|j: int|
                        0 <= j < t.len() && t[j] == s[k] by {
                        if k < i {
                            assert(t[k] == s[k]);
                        } else {
                            assert(t[k + 1] == s[k]);
                        }
                    }
                    assert forall|k: int| 0 <= k < t.len() && t[k].address == b implies exists|j: int|
                        0 <= j < s.len() && s[j] == t[k] by {
                        assert(k != i);
                        if k < i {
                            assert(s[k] == t[k]);
                        } else {
                            assert(s[k - 1] == t[k]);
                        }
                    }
                    lemma_find_same_records(s, t, b);
                }
            }
        }
    }

    /// Drop the record stored for `address`; a miss changes nothing.
    pub fn remove(&mut self, address: u64)
        requires
            stakers_sorted(old(self)@),
        ensures
            stakers_sorted(final(self)@),
            spec_find(final(self)@, address) is None,
            forall|b: u64|
                b != address ==> spec_find(final(self)@, b) == spec_find(old(self)@, b),
            final(self)@.len() <= old(self)@.len(),
    {
        let i = self.position_geq(address);
        let ghost s = self@;
        if i < self.entries.len() && self.entries[i].address == address {
            self.entries.remove(i);
            proof {
                let t = self@;
                assert(t == s.remove(i as int));
                assert forall|p: int, q: int| 0 <= p < q < t.len() implies t[p].address
                    < t[q].address by {
                    if q >= i {
                        assert(t[q] == s[q + 1]);
                    }
                }
                lemma_find_absent(t, address);
                assert forall|k: int| 0 <= k < t.len() implies t[k].address != address by {
                    if k < i {
                        assert(t[k] == s[k]);
                    } else {
                        assert(t[k] == s[k + 1]);
                        assert(s[i as int].address < s[k + 1].address);
                    }
                }
                assert forall|b: u64| b != address implies spec_find(t, b) == spec_find(s, b) by {
                    assert forall|k: int| 0 <= k < s.len() && s[k].address == b implies exists|j: int|
                        0 <= j < t.len() && t[j] == s[k] by {
                        assert(k != i);
                        if k < i {
                            assert(t[k] == s[k]);
                        } else {
                            assert(t[k - 1] == s[k]);
                        }
                    }
                    assert forall|k: int| 0 <= k < t.len() && t[k].address == b implies exists|j: int|
                        0 <= j < s.len() && s[j] == t[k] by {
                        if k < i {
                            assert(s[k] == t[k]);
                        } else {
                            assert(s[k + 1] == t[k]);
                        }
                    }
                    lemma_find_same_records(s, t, b);
                }
            }
        } else {
            proof {
                lemma_find_absent(s, address);
                assert forall|j: int| 0 <= j < s.len() implies s[j].address != address by {
                    if j > i {
                        assert(s[i as int].address < s[j].address);
                    }
                }
            }
        }
    }
}

/// Singleton configuration and state of the staking engine.
#[derive(Clone, Copy, Debug, PartialEq, Eq)]
pub struct Config {
    /// Owner of the engine; `None` freezes every administrative action.
    pub owner: Option<u64>,
    /// Ledger of token A: both the funding and the reward ledger.
    pub fot_token_address: u64,
    /// Ledger of token B (held in the configuration for reference only).
    pub bfot_token_address: u64,
    /// Ledger of token C, the stake asset.
    pub gfot_token_address: u64,
    /// Cached token-A balance available for rewards.
    pub fot_amount: u128,
    /// Cached aggregate token C staked.
    pub gfot_amount: u128,
    /// Unix seconds of the last accrual run; zero until the first run.
    pub last_time: u64,
    /// Token A emitted per full day elapsed.
    pub daily_fot_amount: u128,
    /// Scaling constant of the informational APY query.
    pub apy_prefix: u128,
}

/// The baseline an accrual measures elapsed days from: the recorded last
/// time, or `now` itself on the very first run.
pub open spec fn spec_effective_last(cfg: Config, now: u64) -> int {
    if cfg.last_time == 0 {
        now as int
    } else {
        cfg.last_time as int
    }
}

/// Whole reward days elapsed between the accrual baseline and `now`.
pub open spec fn spec_delta_days(cfg: Config, now: u64) -> int {
    now as int / (SECONDS_PER_DAY as int) - spec_effective_last(cfg, now) / (
    SECONDS_PER_DAY as int)
}

/// Token A distributed by one accrual pass at `now`.
pub open spec fn spec_pool(cfg: Config, now: u64) -> int {
    cfg.daily_fot_amount * spec_delta_days(cfg, now)
}

/// Sum of the staked amounts of the records after the cursor.
pub open spec fn spec_filtered_total(s: Seq<StakerInfo>, start_after: Option<u64>) -> int
    decreases s.len(),
{
    if s.len() == 0 {
        0
    } else {
        spec_filtered_total(s.drop_last(), start_after) + if spec_qualifies(
            s.last(),
            start_after,
        ) {
            s.last().amount as int
        } else {
            0
        }
    }
}

/// One record after an accrual distributing `pool` pro rata over `total`
/// staked: a qualifying record's reward grows by its truncated share, and
/// its staked amount never moves.
pub open spec fn spec_credit_entry(
    e: StakerInfo,
    start_after: Option<u64>,
    pool: int,
    total: int,
) -> StakerInfo {
    if spec_qualifies(e, start_after) {
        StakerInfo { reward: (e.reward + pool * e.amount / total) as u128, ..e }
    } else {
        e
    }
}

/// The configuration after an accrual at `now`: the first run only records
/// the baseline, a run within the same day changes nothing, and a run after
/// one or more whole days moves the baseline to `now`.
pub open spec fn spec_accrue_config(cfg: Config, now: u64) -> Config {
    Config {
        last_time: if spec_delta_days(cfg, now) > 0 {
            now
        } else {
            spec_effective_last(cfg, now) as u64
        },
        ..cfg
    }
}

/// The staker table after an accrual at `now`: unchanged unless whole days
/// elapsed and something is staked past the cursor, in which case every
/// qualifying record is credited its truncated pro-rata share of the pool.
pub open spec fn spec_accrue_stakers(
    cfg: Config,
    s: Seq<StakerInfo>,
    start_after: Option<u64>,
    now: u64,
) -> Seq<StakerInfo> {
    let pool = spec_pool(cfg, now);
    let total = spec_filtered_total(s, start_after);
    if spec_delta_days(cfg, now) <= 0 || total <= 0 {
        s
    } else {
        Seq::new(s.len(), |i: int| spec_credit_entry(s[i], start_after, pool, total))
    }
}

/// Machine limits an accrual pass needs: days may not run backwards, and no
/// pool, sum or credited reward may exceed `u128`.
pub open spec fn spec_accrue_ok(
    cfg: Config,
    s: Seq<StakerInfo>,
    start_after: Option<u64>,
    now: u64,
) -> bool {
    let pool = spec_pool(cfg, now);
    let total = spec_filtered_total(s, start_after);
    &&& spec_delta_days(cfg, now) >= 0
    &&& pool <= u128::MAX
    &&& (spec_delta_days(cfg, now) > 0 ==> total <= u128::MAX)
    &&& (spec_delta_days(cfg, now) > 0 && total > 0 ==> forall|i: int|
        #![trigger s[i]]
        0 <= i < s.len() && spec_qualifies(s[i], start_after) ==> pool * s[i].amount <= u128::MAX
            && s[i].reward + pool * s[i].amount / total <= u128::MAX)
}

/// The filtered stake sum is never negative.
proof fn lemma_filtered_total_nonneg(s: Seq<StakerInfo>, start_after: Option<u64>)
    ensures
        spec_filtered_total(s, start_after) >= 0,
    decreases s.len(),
{
    if s.len() > 0 {
        lemma_filtered_total_nonneg(s.drop_last(), start_after);
    }
}

/// Extending a prefix by one record adds that record's qualifying stake.
proof fn lemma_filtered_total_step(s: Seq<StakerInfo>, start_after: Option<u64>, i: int)
    requires
        0 <= i < s.len(),
    ensures
        spec_filtered_total(s.take(i + 1), start_after) == spec_filtered_total(
            s.take(i),
            start_after,
        ) + if spec_qualifies(s[i], start_after) {
            s[i].amount as int
        } else {
            0
        },
{
    assert(s.take(i + 1).drop_last() =~= s.take(i));
    assert(s.take(i + 1).last() == s[i]);
}

/// A prefix never sums to more than the whole table.
proof fn lemma_filtered_total_prefix_le(s: Seq<StakerInfo>, start_after: Option<u64>, i: int)
    requires
        0 <= i <= s.len(),
    ensures
        spec_filtered_total(s.take(i), start_after) <= spec_filtered_total(s, start_after),
    decreases s.len() - i,
{
    if i == s.len() {
        assert(s.take(i) =~= s);
    } else {
        lemma_filtered_total_step(s, start_after, i);
        lemma_filtered_total_prefix_le(s, start_after, i + 1);
    }
}

/// Lazy pro-rata accrual: establish the baseline on the first run, do
/// nothing within the same reward day, and otherwise move the baseline to
/// `now` and credit every staker past the cursor its truncated share
/// `pool * amount / total` of the pool `daily_fot_amount * elapsed_days`.
/// Never fails; the full accrual used by the state-changing operations
/// passes no cursor.
pub fn update_total_reward(
    cfg: &mut Config,
    stakers: &mut StakerSet,
    now: u64,
    start_after: Option<u64>,
) -> (r: Result<Response, ContractError>)
    requires
        stakers_sorted(old(stakers)@),
        spec_accrue_ok(*old(cfg), old(stakers)@, start_after, now),
    ensures
        *final(cfg) == spec_accrue_config(*old(cfg), now),
        final(stakers)@ == spec_accrue_stakers(*old(cfg), old(stakers)@, start_after, now),
        stakers_sorted(final(stakers)@),
        r matches Ok(resp) && resp.messages@.len() == 0,
{
    if cfg.last_time == 0 {
        cfg.last_time = now;
    }
    let before_time = cfg.last_time;
    let delta = now / SECONDS_PER_DAY - before_time / SECONDS_PER_DAY;
    if delta > 0 {
        cfg.last_time = now;
        let pool = cfg.daily_fot_amount * (delta as u128);
        let ghost s = stakers@;
        proof {
            lemma_filtered_total_nonneg(s, start_after);
        }
        // pass one: sum the qualifying staked amounts
        let mut total: u128 = 0;
        let mut i: usize = 0;
        while i < stakers.len()
            invariant
                i <= s.len(),
                stakers@ == s,
                stakers_sorted(s),
                total == spec_filtered_total(s.take(i as int), start_after),
                spec_filtered_total(s, start_after) <= u128::MAX,
            decreases s.len() - i,
        {
            let e = stakers.at(i);
            proof {
                lemma_filtered_total_step(s, start_after, i as int);
                lemma_filtered_total_prefix_le(s, start_after, i as int + 1);
                lemma_filtered_total_nonneg(s.take(i as int), start_after);
            }
            let qualifies = match start_after {
                None => true,
                Some(c) => e.address > c,
            };
            if qualifies {
                total = total + e.amount;
            }
            i = i + 1;
        }
        proof {
            assert(s.take(s.len() as int) =~= s);
        }
        // pass two: credit each qualifying record its share
        if total > 0 {
            let mut updated: Vec<StakerInfo> = Vec::new();
            let mut i: usize = 0;
            while i < stakers.len()
                invariant
                    i <= s.len(),
                    stakers@ == s,
                    stakers_sorted(s),
                    total == spec_filtered_total(s, start_after),
                    total > 0,
                    pool == spec_pool(*old(cfg), now),
                    spec_delta_days(*old(cfg), now) > 0,
                    spec_accrue_ok(*old(cfg), s, start_after, now),
                    updated@.len() == i,
                    forall|j: int|
                        0 <= j < i ==> updated@[j] == spec_credit_entry(
                            s[j],
                            start_after,
                            pool as int,
                            total as int,
                        ),
                decreases s.len() - i,
            {
                let e = stakers.at(i);
                let qualifies = match start_after {
                    None => true,
                    Some(c) => e.address > c,
                };
                if qualifies {
                    let credit = pool * e.amount / total;
                    updated.push(
                        StakerInfo { address: e.address, amount: e.amount, reward: e.reward + credit },
                    );
                } else {
                    updated.push(e);
                }
                i = i + 1;
            }
            stakers.entries = updated;
            proof {
                assert(stakers@ =~= spec_accrue_stakers(*old(cfg), s, start_after, now));
                assert forall|p: int, q: int|
                    0 <= p < q < stakers@.len() implies stakers@[p].address
                    < stakers@[q].address by {
                    assert(stakers@[p].address == s[p].address);
                    assert(stakers@[q].address == s[q].address);
                }
            }
        }
    }
    Ok(Response { messages: Vec::new() })
}

/// Initial state of the engine: the owner defaults to the instantiating
/// caller, the caches start at zero, and no accrual baseline is set yet.
pub fn instantiate(
    owner: Option<u64>,
    sender: u64,
    fot_token_address: u64,
    bfot_token_address: u64,
    gfot_token_address: u64,
    daily_fot_amount: u128,
    apy_prefix: u128,
) -> (cfg: Config)
    ensures
        cfg.owner == Some(
            match owner {
                Some(o) => o,
                None => sender,
            },
        ),
        cfg.fot_token_address == fot_token_address,
        cfg.bfot_token_address == bfot_token_address,
        cfg.gfot_token_address == gfot_token_address,
        cfg.fot_amount == 0,
        cfg.gfot_amount == 0,
        cfg.last_time == 0,
        cfg.daily_fot_amount == daily_fot_amount,
        cfg.apy_prefix == apy_prefix,
{
    let resolved_owner = match owner {
        Some(o) => o,
        None => sender,
    };
    Config {
        owner: Some(resolved_owner),
        fot_token_address,
        bfot_token_address,
        gfot_token_address,
        fot_amount: 0,
        gfot_amount: 0,
        last_time: 0,
        daily_fot_amount,
        apy_prefix,
    }
}

/// Authorization gate for administrative actions: succeeds exactly when an
/// owner is configured and the caller is that owner.
pub fn check_owner(cfg: &Config, sender: u64) -> (r: Result<(), ContractError>)
    ensures
        r is Ok <==> cfg.owner == Some(sender),
        r is Err ==> r == Err::<(), ContractError>(ContractError::Unauthorized),
{
    match cfg.owner {
        None => Err(ContractError::Unauthorized),
        Some(owner) => {
            if sender != owner {
                Err(ContractError::Unauthorized)
            } else {
                Ok(())
            }
        },
    }
}

/// A deposit notification.  A deposit of token C stakes it for the
/// depositor: rewards accrue first, then the record and the aggregate cache
/// grow by the deposit.  A deposit of token A funds the reward balance
/// without accruing.  A deposit from any other ledger is rejected with the
/// state unchanged.
pub fn try_receive(
    cfg: &mut Config,
    stakers: &mut StakerSet,
    now: u64,
    sender: u64,
    depositor: u64,
    amount: u128,
) -> (r: Result<Response, ContractError>)
    requires
        stakers_sorted(old(stakers)@),
        sender == old(cfg).gfot_token_address ==> {
            &&& spec_accrue_ok(*old(cfg), old(stakers)@, None, now)
            &&& old(cfg).gfot_amount + amount <= u128::MAX
            &&& spec_staker_state(
                spec_accrue_stakers(*old(cfg), old(stakers)@, None, now),
                depositor,
            ).0 + amount <= u128::MAX
        },
        sender != old(cfg).gfot_token_address && sender == old(cfg).fot_token_address ==> old(
            cfg,
        ).fot_amount + amount <= u128::MAX,
    ensures
        sender == old(cfg).gfot_token_address ==> {
            let cfg1 = spec_accrue_config(*old(cfg), now);
            let s1 = spec_accrue_stakers(*old(cfg), old(stakers)@, None, now);
            let state1 = spec_staker_state(s1, depositor);
            &&& *final(cfg) == (Config { gfot_amount: (cfg1.gfot_amount + amount) as u128, ..cfg1 })
            &&& stakers_sorted(final(stakers)@)
            &&& spec_find(final(stakers)@, depositor) == Some(
                (StakerInfo {
                    address: depositor,
                    amount: (state1.0 + amount) as u128,
                    reward: state1.1,
                }),
            )
            &&& forall|b: u64| b != depositor ==> spec_find(final(stakers)@, b) == spec_find(s1, b)
            &&& r matches Ok(resp) && resp.messages@.len() == 0
        },
        sender != old(cfg).gfot_token_address && sender == old(cfg).fot_token_address ==> {
            &&& *final(cfg) == (Config {
                fot_amount: (old(cfg).fot_amount + amount) as u128,
                ..*old(cfg)
            })
            &&& final(stakers)@ == old(stakers)@
            &&& r matches Ok(resp) && resp.messages@.len() == 0
        },
        sender != old(cfg).gfot_token_address && sender != old(cfg).fot_token_address ==> {
            &&& *final(cfg) == *old(cfg)
            &&& final(stakers)@ == old(stakers)@
            &&& r == Err::<Response, ContractError>(ContractError::UnacceptableToken)
        },
{
    if sender == cfg.gfot_token_address {
        let _accrued = update_total_reward(cfg, stakers, now, None);
        let (amount0, reward0) = match stakers.lookup(depositor) {
            Some(e) => (e.amount, e.reward),
            None => (0u128, 0u128),
        };
        proof {
            if spec_find(stakers@, depositor) is Some {
                lemma_find_some_address(stakers@, depositor);
            }
        }
        stakers.save(depositor, amount0 + amount, reward0);
        cfg.gfot_amount = cfg.gfot_amount + amount;
        Ok(Response { messages: Vec::new() })
    } else if sender == cfg.fot_token_address {
        cfg.fot_amount = cfg.fot_amount + amount;
        Ok(Response { messages: Vec::new() })
    } else {
        Err(ContractError::UnacceptableToken)
    }
}

/// Claim the accrued reward.  Rewards accrue first; the claim fails when
/// nothing is owed or the reward cache cannot cover it, and on failure the
/// whole state is unchanged.  On success the reward is zeroed (the record is
/// deleted when its stake is also zero), the cache shrinks, and a token-A
/// transfer is queued.
pub fn try_claim_reward(cfg: &mut Config, stakers: &mut StakerSet, now: u64, sender: u64) -> (r:
    Result<Response, ContractError>)
    requires
        stakers_sorted(old(stakers)@),
        spec_accrue_ok(*old(cfg), old(stakers)@, None, now),
    ensures
        ({
            let cfg1 = spec_accrue_config(*old(cfg), now);
            let s1 = spec_accrue_stakers(*old(cfg), old(stakers)@, None, now);
            match spec_find(s1, sender) {
                None => {
                    &&& r == Err::<Response, ContractError>(ContractError::NoReward)
                    &&& *final(cfg) == *old(cfg)
                    &&& final(stakers)@ == old(stakers)@
                },
                Some(e) => {
                    if e.reward == 0 {
                        &&& r == Err::<Response, ContractError>(ContractError::NoReward)
                        &&& *final(cfg) == *old(cfg)
                        &&& final(stakers)@ == old(stakers)@
                    } else if cfg1.fot_amount < e.reward {
                        &&& r == Err::<Response, ContractError>(ContractError::NotEnoughFot)
                        &&& *final(cfg) == *old(cfg)
                        &&& final(stakers)@ == old(stakers)@
                    } else {
                        &&& *final(cfg) == (Config {
                            fot_amount: (cfg1.fot_amount - e.reward) as u128,
                            ..cfg1
                        })
                        &&& stakers_sorted(final(stakers)@)
                        &&& (if e.amount == 0 {
                            spec_find(final(stakers)@, sender) is None
                        } else {
                            spec_find(final(stakers)@, sender) == Some(
                                (StakerInfo { address: sender, amount: e.amount, reward: 0u128 }),
                            )
                        })
                        &&& forall|b: u64|
                            b != sender ==> spec_find(final(stakers)@, b) == spec_find(s1, b)
                        &&& r matches Ok(resp) && resp.messages@ == seq![
                            (Command::Transfer {
                                token: old(cfg).fot_token_address,
                                to: sender,
                                amount: e.reward,
                            }),
                        ]
                    }
                },
            }
        }),
{
    let mut cfg2 = *cfg;
    let mut set2 = stakers.duplicate();
    let _accrued = update_total_reward(&mut cfg2, &mut set2, now, None);
    match set2.lookup(sender) {
        None => Err(ContractError::NoReward),
        Some(e) => {
            proof {
                lemma_find_some_address(set2@, sender);
            }
            if e.reward == 0 {
                return Err(ContractError::NoReward);
            }
            if cfg2.fot_amount < e.reward {
                return Err(ContractError::NotEnoughFot);
            }
            cfg2.fot_amount = cfg2.fot_amount - e.reward;
            if e.amount == 0 {
                set2.remove(sender);
            } else {
                set2.save(sender, e.amount, 0);
            }
            let mut messages: Vec<Command> = Vec::new();
            messages.push(Command::Transfer {
                token: cfg2.fot_token_address,
                to: sender,
                amount: e.reward,
            });
            *cfg = cfg2;
            *stakers = set2;
            proof {
                assert(messages@ =~= seq![
                    (Command::Transfer {
                        token: old(cfg).fot_token_address,
                        to: sender,
                        amount: e.reward,
                    }),
                ]);
            }
            Ok(Response { messages })
        },
    }
}

/// Release the whole staked amount.  Rewards accrue first; unstaking fails
/// when nothing is staked or the aggregate cache cannot cover it, and on
/// failure the whole state is unchanged.  On success the stake is zeroed
/// (the record is deleted when its reward is also zero), the aggregate cache
/// shrinks, and a token-C transfer is queued.
pub fn try_unstake(cfg: &mut Config, stakers: &mut StakerSet, now: u64, sender: u64) -> (r: Result<
    Response,
    ContractError,
>)
    requires
        stakers_sorted(old(stakers)@),
        spec_accrue_ok(*old(cfg), old(stakers)@, None, now),
    ensures
        ({
            let cfg1 = spec_accrue_config(*old(cfg), now);
            let s1 = spec_accrue_stakers(*old(cfg), old(stakers)@, None, now);
            match spec_find(s1, sender) {
                None => {
                    &&& r == Err::<Response, ContractError>(ContractError::NoStaked)
                    &&& *final(cfg) == *old(cfg)
                    &&& final(stakers)@ == old(stakers)@
                },
                Some(e) => {
                    if e.amount == 0 {
                        &&& r == Err::<Response, ContractError>(ContractError::NoStaked)
                        &&& *final(cfg) == *old(cfg)
                        &&& final(stakers)@ == old(stakers)@
                    } else if cfg1.gfot_amount < e.amount {
                        &&& r == Err::<Response, ContractError>(ContractError::NotEnoughGfot)
                        &&& *final(cfg) == *old(cfg)
                        &&& final(stakers)@ == old(stakers)@
                    } else {
                        &&& *final(cfg) == (Config {
                            gfot_amount: (cfg1.gfot_amount - e.amount) as u128,
                            ..cfg1
                        })
                        &&& stakers_sorted(final(stakers)@)
                        &&& (if e.reward == 0 {
                            spec_find(final(stakers)@, sender) is None
                        } else {
                            spec_find(final(stakers)@, sender) == Some(
                                (StakerInfo { address: sender, amount: 0u128, reward: e.reward }),
                            )
                        })
                        &&& forall|b: u64|
                            b != sender ==> spec_find(final(stakers)@, b) == spec_find(s1, b)
                        &&& r matches Ok(resp) && resp.messages@ == seq![
                            (Command::Transfer {
                                token: old(cfg).gfot_token_address,
                                to: sender,
                                amount: e.amount,
                            }),
                        ]
                    }
                },
            }
        }),
{
    let mut cfg2 = *cfg;
    let mut set2 = stakers.duplicate();
    let _accrued = update_total_reward(&mut cfg2, &mut set2, now, None);
    match set2.lookup(sender) {
        None => Err(ContractError::NoStaked),
        Some(e) => {
            proof {
                lemma_find_some_address(set2@, sender);
            }
            if e.amount == 0 {
                return Err(ContractError::NoStaked);
            }
            if cfg2.gfot_amount < e.amount {
                return Err(ContractError::NotEnoughGfot);
            }
            cfg2.gfot_amount = cfg2.gfot_amount - e.amount;
            if e.reward == 0 {
                set2.remove(sender);
            } else {
                set2.save(sender, 0, e.reward);
            }
            let mut messages: Vec<Command> = Vec::new();
            messages.push(Command::Transfer {
                token: cfg2.gfot_token_address,
                to: sender,
                amount: e.amount,
            });
            *cfg = cfg2;
            *stakers = set2;
            proof {
                assert(messages@ =~= seq![
                    (Command::Transfer {
                        token: old(cfg).gfot_token_address,
                        to: sender,
                        amount: e.amount,
                    }),
                ]);
            }
            Ok(Response { messages })
        },
    }
}

/// Owner-gated withdrawal of the whole cached token-A reward balance to the
/// caller, after a final accrual.
pub fn try_withdraw_fot(cfg: &mut Config, stakers: &mut StakerSet, now: u64, sender: u64) -> (r:
    Result<Response, ContractError>)
    requires
        stakers_sorted(old(stakers)@),
        old(cfg).owner == Some(sender) ==> spec_accrue_ok(*old(cfg), old(stakers)@, None, now),
    ensures
        old(cfg).owner == Some(sender) ==> {
            let cfg1 = spec_accrue_config(*old(cfg), now);
            &&& *final(cfg) == (Config { fot_amount: 0u128, ..cfg1 })
            &&& final(stakers)@ == spec_accrue_stakers(*old(cfg), old(stakers)@, None, now)
            &&& stakers_sorted(final(stakers)@)
            &&& r matches Ok(resp) && resp.messages@ == seq![
                (Command::Transfer {
                    token: old(cfg).fot_token_address,
                    to: sender,
                    amount: old(cfg).fot_amount,
                }),
            ]
        },
        old(cfg).owner != Some(sender) ==> {
            &&& *final(cfg) == *old(cfg)
            &&& final(stakers)@ == old(stakers)@
            &&& r == Err::<Response, ContractError>(ContractError::Unauthorized)
        },
{
    match check_owner(cfg, sender) {
        Err(e) => Err(e),
        Ok(()) => {
            let _accrued = update_total_reward(cfg, stakers, now, None);
            let fot_amount = cfg.fot_amount;
            cfg.fot_amount = 0;
            let mut messages: Vec<Command> = Vec::new();
            messages.push(Command::Transfer {
                token: cfg.fot_token_address,
                to: sender,
                amount: fot_amount,
            });
            proof {
                assert(messages@ =~= seq![
                    (Command::Transfer {
                        token: old(cfg).fot_token_address,
                        to: sender,
                        amount: old(cfg).fot_amount,
                    }),
                ]);
            }
            Ok(Response { messages })
        },
    }
}

/// Owner-gated withdrawal of the whole cached aggregate token-C stake to the
/// caller, after a final accrual.
pub fn try_withdraw_gfot(cfg: &mut Config, stakers: &mut StakerSet, now: u64, sender: u64) -> (r:
    Result<Response, ContractError>)
    requires
        stakers_sorted(old(stakers)@),
        old(cfg).owner == Some(sender) ==> spec_accrue_ok(*old(cfg), old(stakers)@, None, now),
    ensures
        old(cfg).owner == Some(sender) ==> {
            let cfg1 = spec_accrue_config(*old(cfg), now);
            &&& *final(cfg) == (Config { gfot_amount: 0u128, ..cfg1 })
            &&& final(stakers)@ == spec_accrue_stakers(*old(cfg), old(stakers)@, None, now)
            &&& stakers_sorted(final(stakers)@)
            &&& r matches Ok(resp) && resp.messages@ == seq![
                (Command::Transfer {
                    token: old(cfg).gfot_token_address,
                    to: sender,
                    amount: old(cfg).gfot_amount,
                }),
            ]
        },
        old(cfg).owner != Some(sender) ==> {
            &&& *final(cfg) == *old(cfg)
            &&& final(stakers)@ == old(stakers)@
            &&& r == Err::<Response, ContractError>(ContractError::Unauthorized)
        },
{
    match check_owner(cfg, sender) {
        Err(e) => Err(e),
        Ok(()) => {
            let _accrued = update_total_reward(cfg, stakers, now, None);
            let gfot_amount = cfg.gfot_amount;
            cfg.gfot_amount = 0;
            let mut messages: Vec<Command> = Vec::new();
            messages.push(Command::Transfer {
                token: cfg.gfot_token_address,
                to: sender,
                amount: gfot_amount,
            });
            proof {
                assert(messages@ =~= seq![
                    (Command::Transfer {
                        token: old(cfg).gfot_token_address,
                        to: sender,
                        amount: old(cfg).gfot_amount,
                    }),
                ]);
            }
            Ok(Response { messages })
        },
    }
}

/// Owner-gated replacement of the owner.  Passing `None` clears the owner
/// and freezes the engine for further administrative actions.
pub fn execute_update_config(cfg: &mut Config, sender: u64, new_owner: Option<u64>) -> (r: Result<
    Response,
    ContractError,
>)
    ensures
        old(cfg).owner == Some(sender) ==> {
            &&& *final(cfg) == (Config { owner: new_owner, ..*old(cfg) })
            &&& r matches Ok(resp) && resp.messages@.len() == 0
        },
        old(cfg).owner != Some(sender) ==> {
            &&& *final(cfg) == *old(cfg)
            &&& r == Err::<Response, ContractError>(ContractError::Unauthorized)
        },
{
    match check_owner(cfg, sender) {
        Err(e) => Err(e),
        Ok(()) => {
            cfg.owner = new_owner;
            Ok(Response { messages: Vec::new() })
        },
    }
}

/// Owner-gated update of the emission and APY constants.
pub fn execute_update_constants(
    cfg: &mut Config,
    sender: u64,
    daily_fot_amount: u128,
    apy_prefix: u128,
) -> (r: Result<Response, ContractError>)
    ensures
        old(cfg).owner == Some(sender) ==> {
            &&& *final(cfg) == (Config { daily_fot_amount, apy_prefix, ..*old(cfg) })
            &&& r matches Ok(resp) && resp.messages@.len() == 0
        },
        old(cfg).owner != Some(sender) ==> {
            &&& *final(cfg) == *old(cfg)
            &&& r == Err::<Response, ContractError>(ContractError::Unauthorized)
        },
{
    match check_owner(cfg, sender) {
        Err(e) => Err(e),
        Ok(()) => {
            cfg.daily_fot_amount = daily_fot_amount;
            cfg.apy_prefix = apy_prefix;
            Ok(Response { messages: Vec::new() })
        },
    }
}

/// Owner-gated manual correction of the accrual baseline.
pub fn execute_update_last_time(cfg: &mut Config, sender: u64, last_time: u64) -> (r: Result<
    Response,
    ContractError,
>)
    ensures
        old(cfg).owner == Some(sender) ==> {
            &&& *final(cfg) == (Config { last_time, ..*old(cfg) })
            &&& r matches Ok(resp) && resp.messages@.len() == 0
        },
        old(cfg).owner != Some(sender) ==> {
            &&& *final(cfg) == *old(cfg)
            &&& r == Err::<Response, ContractError>(ContractError::Unauthorized)
        },
{
    match check_owner(cfg, sender) {
        Err(e) => Err(e),
        Ok(()) => {
            cfg.last_time = last_time;
            Ok(Response { messages: Vec::new() })
        },
    }
}

/// The record a bulk upsert ends up storing for `address`: the last entry of
/// the batch that carries it, if any.
pub open spec fn spec_batch_lookup(list: Seq<StakerInfo>, address: u64) -> Option<StakerInfo>
    decreases list.len(),
{
    if list.len() == 0 {
        None
    } else if list.last().address == address {
        Some(list.last())
    } else {
        spec_batch_lookup(list.drop_last(), address)
    }
}

/// Owner-gated bulk upsert of staker records, used for migration; entries
/// are applied in order, so the last record of the batch for an address
/// wins.  No accrual is triggered.
pub fn execute_add_stakers(
    cfg: &mut Config,
    stakers: &mut StakerSet,
    sender: u64,
    new_stakers: Vec<StakerInfo>,
) -> (r: Result<Response, ContractError>)
    requires
        stakers_sorted(old(stakers)@),
    ensures
        old(cfg).owner == Some(sender) ==> {
            &&& *final(cfg) == *old(cfg)
            &&& stakers_sorted(final(stakers)@)
            &&& forall|a: u64|
                #![trigger spec_batch_lookup(new_stakers@, a)]
                match spec_batch_lookup(new_stakers@, a) {
                    Some(e) => spec_find(final(stakers)@, a) == Some(e),
                    None => spec_find(final(stakers)@, a) == spec_find(old(stakers)@, a),
                }
            &&& r matches Ok(resp) && resp.messages@.len() == 0
        },
        old(cfg).owner != Some(sender) ==> {
            &&& *final(cfg) == *old(cfg)
            &&& final(stakers)@ == old(stakers)@
            &&& r == Err::<Response, ContractError>(ContractError::Unauthorized)
        },
{
    match check_owner(cfg, sender) {
        Err(e) => Err(e),
        Ok(()) => {
            let mut i: usize = 0;
            while i < new_stakers.len()
                invariant
                    i <= new_stakers@.len(),
                    stakers_sorted(stakers@),
                    forall|a: u64|
                        #![trigger spec_batch_lookup(new_stakers@.take(i as int), a)]
                        match spec_batch_lookup(new_stakers@.take(i as int), a) {
                            Some(e) => spec_find(stakers@, a) == Some(e),
                            None => spec_find(stakers@, a) == spec_find(old(stakers)@, a),
                        },
                decreases new_stakers@.len() - i,
            {
                let ghost prev = stakers@;
                let staker = new_stakers[i];
                stakers.save(staker.address, staker.amount, staker.reward);
                proof {
                    assert(new_stakers@.take(i as int + 1).drop_last() =~= new_stakers@.take(
                        i as int,
                    ));
                    assert(new_stakers@.take(i as int + 1).last() == new_stakers@[i as int]);
                    assert forall|a: u64|
                        #![trigger spec_batch_lookup(new_stakers@.take(i as int + 1), a)]
                        match spec_batch_lookup(new_stakers@.take(i as int + 1), a) {
                            Some(e) => spec_find(stakers@, a) == Some(e),
                            None => spec_find(stakers@, a) == spec_find(old(stakers)@, a),
                        } by {
                        let prior = spec_batch_lookup(new_stakers@.take(i as int), a);
                        assert(new_stakers@.take(i as int + 1).drop_last() == new_stakers@.take(
                            i as int,
                        ));
                        if a == staker.address {
                            assert((StakerInfo {
                                address: staker.address,
                                amount: staker.amount,
                                reward: staker.reward,
                            }) == staker);
                        } else {
                            assert(spec_find(stakers@, a) == spec_find(prev, a));
                        }
                    }
                }
                i = i + 1;
            }
            proof {
                assert(new_stakers@.take(new_stakers@.len() as int) =~= new_stakers@);
            }
            Ok(Response { messages: Vec::new() })
        },
    }
}

/// Owner-gated removal of one staker record; removing an absent address
/// changes nothing.  No accrual is triggered.
pub fn execute_remove_staker(
    cfg: &mut Config,
    stakers: &mut StakerSet,
    sender: u64,
    address: u64,
) -> (r: Result<Response, ContractError>)
    requires
        stakers_sorted(old(stakers)@),
    ensures
        old(cfg).owner == Some(sender) ==> {
            &&& *final(cfg) == *old(cfg)
            &&& stakers_sorted(final(stakers)@)
            &&& spec_find(final(stakers)@, address) is None
            &&& forall|b: u64|
                b != address ==> spec_find(final(stakers)@, b) == spec_find(old(stakers)@, b)
            &&& r matches Ok(resp) && resp.messages@.len() == 0
        },
        old(cfg).owner != Some(sender) ==> {
            &&& *final(cfg) == *old(cfg)
            &&& final(stakers)@ == old(stakers)@
            &&& r == Err::<Response, ContractError>(ContractError::Unauthorized)
        },
{
    match check_owner(cfg, sender) {
        Err(e) => Err(e),
        Ok(()) => {
            stakers.remove(address);
            Ok(Response { messages: Vec::new() })
        },
    }
}

/// Owner-gated bulk delete of every staker record strictly after the cursor.
/// The limit argument is accepted for interface compatibility and has no
/// effect: everything after the cursor is removed.  No accrual is triggered.
pub fn execute_remove_all_stakers(
    cfg: &mut Config,
    stakers: &mut StakerSet,
    sender: u64,
    start_after: Option<u64>,
    _limit: Option<u32>,
) -> (r: Result<Response, ContractError>)
    requires
        stakers_sorted(old(stakers)@),
    ensures
        old(cfg).owner == Some(sender) ==> {
            &&& *final(cfg) == *old(cfg)
            &&& stakers_sorted(final(stakers)@)
            &&& final(stakers)@ == old(stakers)@.take(
                spec_first_after(old(stakers)@, start_after),
            )
            &&& forall|b: u64|
                (match start_after {
                    None => true,
                    Some(c) => b > c,
                }) ==> spec_find(final(stakers)@, b) is None
            &&& forall|b: u64|
                !(match start_after {
                    None => true,
                    Some(c) => b > c,
                }) ==> spec_find(final(stakers)@, b) == spec_find(old(stakers)@, b)
            &&& r matches Ok(resp) && resp.messages@.len() == 0
        },
        old(cfg).owner != Some(sender) ==> {
            &&& *final(cfg) == *old(cfg)
            &&& final(stakers)@ == old(stakers)@
            &&& r == Err::<Response, ContractError>(ContractError::Unauthorized)
        },
{
    match check_owner(cfg, sender) {
        Err(e) => Err(e),
        Ok(()) => {
            let ghost s = stakers@;
            let fa = stakers.position_after(start_after);
            stakers.entries.truncate(fa);
            proof {
                let t = stakers@;
                assert(t == s.subrange(0, fa as int));
                assert(stakers_sorted(t));
                assert forall|b: u64|
                    (match start_after {
                        None => true,
                        Some(c) => b > c,
                    }) implies spec_find(t, b) is None by {
                    lemma_find_absent(t, b);
                    assert forall|j: int| 0 <= j < t.len() implies t[j].address != b by {
                        assert(t[j] == s[j]);
                        assert(!spec_qualifies(s[j], start_after));
                    }
                }
                assert forall|b: u64|
                    !(match start_after {
                        None => true,
                        Some(c) => b > c,
                    }) implies spec_find(t, b) == spec_find(s, b) by {
                    assert forall|k: int| 0 <= k < s.len() && s[k].address == b implies exists|
                        j: int,
                    | 0 <= j < t.len() && t[j] == s[k] by {
                        assert(!spec_qualifies(s[k], start_after));
                        assert(k < fa);
                        assert(t[k] == s[k]);
                    }
                    assert forall|k: int| 0 <= k < t.len() && t[k].address == b implies exists|
                        j: int,
                    | 0 <= j < s.len() && s[j] == t[k] by {
                        assert(s[k] == t[k]);
                    }
                    lemma_find_same_records(s, t, b);
                }
            }
            Ok(Response { messages: Vec::new() })
        },
    }
}

/// Payload a depositor may attach to a deposit notification; the engine
/// routes on the sending ledger, not on this payload.
#[derive(Clone, Copy, Debug, PartialEq, Eq)]
pub enum ReceiveMsg {
    Stake {},
    InitialFund {},
}

/// Argument of the migration hook.
#[derive(Clone, Copy, Debug, PartialEq, Eq)]
pub struct MigrateMsg {}

/// Snapshot of the configuration returned by the read-only config query.
#[derive(Clone, Copy, Debug, PartialEq, Eq)]
pub struct ConfigResponse {
    pub owner: Option<u64>,
    pub fot_token_address: u64,
    pub bfot_token_address: u64,
    pub gfot_token_address: u64,
    pub fot_amount: u128,
    pub gfot_amount: u128,
    pub last_time: u64,
    pub daily_fot_amount: u128,
    pub apy_prefix: u128,
}

/// One staker's state as the staker query reports it: the implicit zero pair
/// when no record is stored.
#[derive(Clone, Copy, Debug, PartialEq, Eq)]
pub struct StakerResponse {
    pub address: u64,
    pub amount: u128,
    pub reward: u128,
}

/// A page of staker records in ascending address order.
#[derive(Clone, Debug, PartialEq, Eq)]
pub struct StakerListResponse {
    pub stakers: Vec<StakerInfo>,
}

/// A bare record count.
#[derive(Clone, Copy, Debug, PartialEq, Eq)]
pub struct CountInfo {
    pub count: u128,
}

/// Read-only snapshot of the configuration.
pub fn query_config(cfg: &Config) -> (resp: ConfigResponse)
    ensures
        resp.owner == cfg.owner,
        resp.fot_token_address == cfg.fot_token_address,
        resp.bfot_token_address == cfg.bfot_token_address,
        resp.gfot_token_address == cfg.gfot_token_address,
        resp.fot_amount == cfg.fot_amount,
        resp.gfot_amount == cfg.gfot_amount,
        resp.last_time == cfg.last_time,
        resp.daily_fot_amount == cfg.daily_fot_amount,
        resp.apy_prefix == cfg.apy_prefix,
{
    ConfigResponse {
        owner: cfg.owner,
        fot_token_address: cfg.fot_token_address,
        bfot_token_address: cfg.bfot_token_address,
        gfot_token_address: cfg.gfot_token_address,
        fot_amount: cfg.fot_amount,
        gfot_amount: cfg.gfot_amount,
        last_time: cfg.last_time,
        daily_fot_amount: cfg.daily_fot_amount,
        apy_prefix: cfg.apy_prefix,
    }
}

/// Read-only lookup of one staker: an absent address reads as the implicit
/// zero pair, never as an error.
pub fn query_staker(stakers: &StakerSet, address: u64) -> (resp: StakerResponse)
    requires
        stakers_sorted(stakers@),
    ensures
        resp.address == address,
        (resp.amount, resp.reward) == spec_staker_state(stakers@, address),
{
    match stakers.lookup(address) {
        Some(e) => {
            proof {
                lemma_find_some_address(stakers@, address);
            }
            StakerResponse { address, amount: e.amount, reward: e.reward }
        },
        None => StakerResponse { address, amount: 0, reward: 0 },
    }
}

/// The page size a listing query uses for a requested limit: the request
/// capped at `MAX_LIMIT`, or `DEFAULT_LIMIT` when absent.
pub open spec fn spec_effective_limit(limit: Option<u32>) -> int {
    let l = match limit {
        Some(l) => l as int,
        None => DEFAULT_LIMIT as int,
    };
    if l < MAX_LIMIT as int {
        l
    } else {
        MAX_LIMIT as int
    }
}

/// Read-only listing: up to the effective limit of records strictly after
/// the cursor, in ascending address order.
pub fn query_list_stakers(
    stakers: &StakerSet,
    start_after: Option<u64>,
    limit: Option<u32>,
) -> (resp: StakerListResponse)
    requires
        stakers_sorted(stakers@),
    ensures
        ({
            let s = stakers@;
            let fa = spec_first_after(s, start_after);
            let lim = spec_effective_limit(limit);
            let k = if lim <= s.len() - fa {
                lim
            } else {
                s.len() - fa
            };
            resp.stakers@ == s.subrange(fa, fa + k)
        }),
{
    let lim_u32 = match limit {
        Some(l) => if l < MAX_LIMIT {
            l
        } else {
            MAX_LIMIT
        },
        None => DEFAULT_LIMIT,
    };
    let lim = lim_u32 as usize;
    let fa = stakers.position_after(start_after);
    let avail = stakers.len() - fa;
    let k = if lim <= avail {
        lim
    } else {
        avail
    };
    let mut out: Vec<StakerInfo> = Vec::new();
    let mut i: usize = 0;
    while i < k
        invariant
            i <= k,
            fa + k <= stakers@.len(),
            stakers@.len() <= usize::MAX,
            stakers_sorted(stakers@),
            out@.len() == i,
            forall|j: int| 0 <= j < i ==> out@[j] == stakers@[fa + j],
        decreases k - i,
    {
        out.push(stakers.at(fa + i));
        i = i + 1;
    }
    proof {
        assert(out@ =~= stakers@.subrange(
            fa as int,
            fa as int + if spec_effective_limit(limit) <= stakers@.len() - fa {
                spec_effective_limit(limit)
            } else {
                stakers@.len() - fa
            },
        ));
    }
    StakerListResponse { stakers: out }
}

/// Read-only informational APY figure, scaled by `MULTIPLE`: zero when
/// nothing is staked, else
/// `apy_prefix * MULTIPLE^2 / (supply / MULTIPLE + 10000) / total_staked`
/// against the fresh total supply of token C handed in by the caller.
pub fn query_apy(cfg: &Config, gfot_total_supply: u128) -> (r: u128)
    requires
        cfg.apy_prefix * MULTIPLE * MULTIPLE <= u128::MAX,
    ensures
        cfg.gfot_amount == 0 ==> r == 0,
        cfg.gfot_amount != 0 ==> r as int == cfg.apy_prefix * MULTIPLE * MULTIPLE / (
        gfot_total_supply as int / (MULTIPLE as int) + 10000) / (cfg.gfot_amount as int),
{
    let total_staked_gfot = cfg.gfot_amount;
    if total_staked_gfot == 0 {
        return 0;
    }
    proof {
        lemma_div_is_ordered(
            gfot_total_supply as int,
            u128::MAX as int,
            MULTIPLE as int,
        );
        lemma_div_pos_is_pos(gfot_total_supply as int, MULTIPLE as int);
    }
    let gfot_rate = gfot_total_supply / MULTIPLE + 10000;
    cfg.apy_prefix * MULTIPLE * MULTIPLE / gfot_rate / total_staked_gfot
}

/// Sum of the shares one accrual pass credits to the records after the
/// cursor, each truncated individually.
pub open spec fn spec_credited_sum(
    s: Seq<StakerInfo>,
    start_after: Option<u64>,
    pool: int,
    total: int,
) -> int
    decreases s.len(),
{
    if s.len() == 0 {
        0
    } else {
        spec_credited_sum(s.drop_last(), start_after, pool, total) + if spec_qualifies(
            s.last(),
            start_after,
        ) {
            pool * s.last().amount / total
        } else {
            0
        }
    }
}

/// Truncating division loses mass: dividing two parts separately never
/// exceeds dividing their sum.
proof fn lemma_div_superadd(x: int, y: int, d: int)
    requires
        d > 0,
        x >= 0,
        y >= 0,
    ensures
        x / d + y / d <= (x + y) / d,
{
    lemma_fundamental_div_mod(x, d);
    lemma_fundamental_div_mod(y, d);
    vstd::arithmetic::div_mod::lemma_mod_bound(x, d);
    vstd::arithmetic::div_mod::lemma_mod_bound(y, d);
    assert(d * (x / d) + d * (y / d) == d * (x / d + y / d)) by (nonlinear_arith);
    lemma_div_is_ordered(d * (x / d + y / d), x + y, d);
    lemma_div_multiples_vanish(x / d + y / d, d);
}

/// The credited shares sum to at most the undivided share of the whole
/// filtered stake.
proof fn lemma_credited_sum_share(
    s: Seq<StakerInfo>,
    start_after: Option<u64>,
    pool: int,
    total: int,
)
    requires
        pool >= 0,
        total > 0,
    ensures
        spec_credited_sum(s, start_after, pool, total) <= pool * spec_filtered_total(
            s,
            start_after,
        ) / total,
    decreases s.len(),
{
    if s.len() > 0 {
        let rest = s.drop_last();
        lemma_credited_sum_share(rest, start_after, pool, total);
        let ft = spec_filtered_total(rest, start_after);
        lemma_filtered_total_nonneg(rest, start_after);
        if spec_qualifies(s.last(), start_after) {
            let a = s.last().amount as int;
            assert(pool * ft >= 0 && pool * a >= 0) by (nonlinear_arith)
                requires
                    pool >= 0,
                    ft >= 0,
                    a >= 0,
            ;
            lemma_div_superadd(pool * ft, pool * a, total);
            assert(pool * ft + pool * a == pool * (ft + a)) by (nonlinear_arith);
        }
    }
}

/// The rounding leak only ever loses: one accrual pass distributing `pool`
/// over a filtered stake of at most `total` credits, across all stakers
/// together, at most `pool`; the remainder stays with the pool.
pub proof fn lemma_credited_at_most_pool(
    s: Seq<StakerInfo>,
    start_after: Option<u64>,
    pool: int,
    total: int,
)
    requires
        pool >= 0,
        total > 0,
        spec_filtered_total(s, start_after) <= total,
    ensures
        spec_credited_sum(s, start_after, pool, total) <= pool,
{
    lemma_credited_sum_share(s, start_after, pool, total);
    let ft = spec_filtered_total(s, start_after);
    lemma_filtered_total_nonneg(s, start_after);
    assert(pool * ft <= total * pool) by (nonlinear_arith)
        requires
            pool >= 0,
            0 <= ft <= total,
    ;
    lemma_div_is_ordered(pool * ft, total * pool, total);
    lemma_div_multiples_vanish(pool, total);
}

/// Sum of the unclaimed rewards of all records.
pub open spec fn spec_rewards_total(s: Seq<StakerInfo>) -> int
    decreases s.len(),
{
    if s.len() == 0 {
        0
    } else {
        spec_rewards_total(s.drop_last()) + s.last().reward as int
    }
}

/// Crediting every record raises the reward sum by exactly the sum of the
/// individual truncated shares.
proof fn lemma_credit_entries_reward_sum(
    s: Seq<StakerInfo>,
    start_after: Option<u64>,
    pool: int,
    total: int,
)
    requires
        pool >= 0,
        total > 0,
        forall|i: int|
            #![trigger s[i]]
            0 <= i < s.len() && spec_qualifies(s[i], start_after) ==> s[i].reward + pool
                * s[i].amount / total <= u128::MAX,
    ensures
        spec_rewards_total(
            Seq::new(s.len(), |i: int| spec_credit_entry(s[i], start_after, pool, total)),
        ) == spec_rewards_total(s) + spec_credited_sum(s, start_after, pool, total),
    decreases s.len(),
{
    let t = Seq::new(s.len(), |i: int| spec_credit_entry(s[i], start_after, pool, total));
    if s.len() > 0 {
        let rest = s.drop_last();
        lemma_credit_entries_reward_sum(rest, start_after, pool, total);
        assert(t.drop_last() =~= Seq::new(
            rest.len(),
            |i: int| spec_credit_entry(rest[i], start_after, pool, total),
        ));
        assert(t.last() == spec_credit_entry(s.last(), start_after, pool, total));
        if spec_qualifies(s.last(), start_after) {
            assert(pool * s.last().amount >= 0) by (nonlinear_arith)
                requires
                    pool >= 0,
                    s.last().amount >= 0,
            ;
            lemma_div_pos_is_pos(pool * s.last().amount, total);
        }
    }
}

/// The rounding leak of a whole accrual, stated of the pass itself: after
/// one accrual the rewards of all stakers together have grown by at most the
/// pool `daily_fot_amount * elapsed_days`; the truncated remainders are
/// implicitly retained by the pool, never reissued.
pub proof fn lemma_accrual_never_exceeds_pool(
    cfg: Config,
    s: Seq<StakerInfo>,
    start_after: Option<u64>,
    now: u64,
)
    requires
        spec_accrue_ok(cfg, s, start_after, now),
    ensures
        spec_rewards_total(spec_accrue_stakers(cfg, s, start_after, now)) <= spec_rewards_total(s)
            + spec_pool(cfg, now),
{
    let pool = spec_pool(cfg, now);
    let total = spec_filtered_total(s, start_after);
    assert(pool >= 0) by (nonlinear_arith)
        requires
            cfg.daily_fot_amount >= 0,
            spec_delta_days(cfg, now) >= 0,
            pool == cfg.daily_fot_amount * spec_delta_days(cfg, now),
    ;
    if spec_delta_days(cfg, now) > 0 && total > 0 {
        lemma_credit_entries_reward_sum(s, start_after, pool, total);
        lemma_credited_at_most_pool(s, start_after, pool, total);
    }
}

/// Accrual is idempotent in time: a second accrual at the same instant finds
/// no elapsed day and changes neither the configuration nor any staker.
pub proof fn lemma_accrue_idempotent(
    cfg: Config,
    s: Seq<StakerInfo>,
    start_after: Option<u64>,
    now: u64,
)
    requires
        spec_delta_days(cfg, now) >= 0,
    ensures
        ({
            let cfg1 = spec_accrue_config(cfg, now);
            let s1 = spec_accrue_stakers(cfg, s, start_after, now);
            &&& spec_delta_days(cfg1, now) == 0
            &&& spec_accrue_config(cfg1, now) == cfg1
            &&& spec_accrue_stakers(cfg1, s1, start_after, now) == s1
        }),
{
    let cfg1 = spec_accrue_config(cfg, now);
    if spec_delta_days(cfg, now) > 0 {
        assert(cfg1.last_time == now);
        assert(now as int / (SECONDS_PER_DAY as int) >= spec_effective_last(cfg, now) / (
        SECONDS_PER_DAY as int));
        assert(spec_delta_days(cfg1, now) == 0);
    } else {
        assert(cfg1.last_time as int == spec_effective_last(cfg, now));
        assert(spec_delta_days(cfg1, now) == 0);
    }
}

/// An address with no stored record is invisible everywhere: a direct
/// lookup reads the implicit zero pair, and no listing page contains it.
pub proof fn lemma_absent_staker_invisible(s: Seq<StakerInfo>, address: u64, fa: int, k: int)
    requires
        spec_find(s, address) is None,
        0 <= fa,
        0 <= k,
        fa + k <= s.len(),
    ensures
        spec_staker_state(s, address) == (0u128, 0u128),
        forall|j: int|
            0 <= j < k ==> #[trigger] s.subrange(fa, fa + k)[j].address != address,
{
    lemma_find_absent(s, address);
    assert forall|j: int|
        0 <= j < k implies #[trigger] s.subrange(fa, fa + k)[j].address != address by {
        assert(s.subrange(fa, fa + k)[j] == s[fa + j]);
    }
}

/// This engine's recorded contract identity.
pub open spec fn spec_contract_name() -> Seq<char> {
    "gfotstaking"@
}

/// Migration hook: succeeds exactly when the recorded prior contract
/// identity matches this engine's name.
pub fn migrate(previous_contract: String) -> (r: Result<Response, ContractError>)
    ensures
        previous_contract@ == spec_contract_name() ==> (r matches Ok(resp)
            && resp.messages@.len() == 0),
        previous_contract@ != spec_contract_name() ==> (r matches Err(e)
            && e matches ContractError::CannotMigrate { previous_contract: p }
            && p@ == previous_contract@),
{
    let expected: String = "gfotstaking".to_owned();
    if previous_contract == expected {
        Ok(Response { messages: Vec::new() })
    } else {
        Err(ContractError::CannotMigrate { previous_contract })
    }
}

} // verus!
