use std::time::Duration;

use snob_core::budget::{
    accounts_per_day, action_block_cooldown, challenge_cooldown, rate_limit_cooldown, RateBudget,
    RateBudgetError, UnlimitedRateBudget,
};
use snob_core::clock::EpochMs;

#[test]
fn the_account_ceiling_halves_for_a_week_after_a_push_back() {
    let now = EpochMs::new(10 * 86_400_000);
    let day = 86_400_000_i64;
    assert_eq!(accounts_per_day(None, now), 2_000);
    assert_eq!(accounts_per_day(Some(EpochMs::new(now.get() - day)), now), 1_000);
    assert_eq!(accounts_per_day(Some(EpochMs::new(now.get() - 7 * day + 1)), now), 1_000);
    assert_eq!(accounts_per_day(Some(EpochMs::new(now.get() - 7 * day)), now), 2_000);
}

#[test]
fn the_cooldowns_are_the_documented_ones() {
    assert_eq!(rate_limit_cooldown(), Duration::from_secs(2 * 3600));
    assert_eq!(action_block_cooldown(), Duration::from_secs(12 * 3600));
    assert_eq!(challenge_cooldown(), Duration::from_secs(30 * 60));
    assert!(
        action_block_cooldown() > rate_limit_cooldown(),
        "an action block is not a throttle and must not be treated as the lighter one"
    );
}

#[test]
fn without_a_budget_nothing_waits() {
    let budget = UnlimitedRateBudget;
    assert_eq!(budget.reserve().unwrap(), Duration::ZERO);
    assert_eq!(budget.reserve_write().unwrap(), Duration::ZERO);
    assert_eq!(budget.cooldown().unwrap(), None);
    assert_eq!(budget.accounts_wait(5).unwrap(), Duration::ZERO);
    assert!(budget.spend_accounts(5).is_ok());
    assert_eq!(budget.accounts_left().unwrap(), u32::MAX);
}

#[test]
fn a_budget_error_says_what_it_was_given() {
    assert!(RateBudgetError("the disk is full".to_string()).to_string().contains("the disk is full"));
}
