use hex_game::external::{Stream, StreamFinishReason, StreamStatus, TICKS_PER_SECOND};
use hex_game::Contract;

fn stream(receiver: &str, status: StreamStatus, balance: u128, tokens_per_sec: u128) -> Stream {
    Stream {
        id: [0u8; 32],
        description: None,
        creator_id: "creator".to_string(),
        owner_id: "owner".to_string(),
        receiver_id: receiver.to_string(),
        token_account_id: "token".to_string(),
        timestamp_created: 0,
        last_action: 0,
        balance,
        tokens_per_sec,
        status,
        tokens_total_withdrawn: 0,
        cliff: None,
        is_expirable: true,
        is_locked: true,
        available_to_withdraw_by_formula: 0,
    }
}

#[test]
fn test_available_to_withdraw_exact() {
    let s = stream("game", StreamStatus::Active, 100, 1);
    // 5 whole seconds accrued one token each, below the balance.
    assert_eq!(s.available_to_withdraw(5 * TICKS_PER_SECOND as u64), 5);
    // Accrual is capped by the balance.
    assert_eq!(s.available_to_withdraw(1000 * TICKS_PER_SECOND as u64), 100);
    // Sub-second elapsed time accrues nothing.
    assert_eq!(s.available_to_withdraw(TICKS_PER_SECOND as u64 - 1), 0);
}

#[test]
fn test_available_to_withdraw_inactive() {
    let s = stream("game", StreamStatus::Paused, 100, 1);
    assert_eq!(s.available_to_withdraw(5 * TICKS_PER_SECOND as u64), 0);
    let s = stream(
        "game",
        StreamStatus::Finished { reason: StreamFinishReason::StoppedByOwner },
        100,
        1,
    );
    assert_eq!(s.available_to_withdraw(5 * TICKS_PER_SECOND as u64), 0);
}

#[test]
fn test_available_to_withdraw_huge_rate_capped() {
    let s = stream("game", StreamStatus::Active, 7, u128::MAX);
    // The uncapped product overflows 128 bits; the cap still applies.
    assert_eq!(s.available_to_withdraw(100 * TICKS_PER_SECOND as u64), 7);
}

#[test]
fn test_check_premium_account_internal() {
    let contract = Contract::new(Some("roketo".to_string()));
    let receiver = "game".to_string();
    let now = 5 * TICKS_PER_SECOND as u64;

    // An active, locked, expirable stream to the receiver with accrual
    // below its balance qualifies.
    let qualifying = stream("game", StreamStatus::Active, 100, 1);
    assert!(contract.check_premium_account_internal(vec![qualifying], &receiver, now));

    // No streams: not premium.
    assert!(!contract.check_premium_account_internal(vec![], &receiver, now));

    // A paused stream does not qualify.
    let paused = stream("game", StreamStatus::Paused, 100, 1);
    assert!(!contract.check_premium_account_internal(vec![paused], &receiver, now));

    // A stream to someone else does not qualify.
    let elsewhere = stream("other", StreamStatus::Active, 100, 1);
    assert!(!contract.check_premium_account_internal(vec![elsewhere], &receiver, now));

    // A fully accrued stream does not qualify.
    let drained = stream("game", StreamStatus::Active, 3, 1);
    assert!(!contract.check_premium_account_internal(vec![drained], &receiver, now));

    // An unlocked stream does not qualify.
    let mut unlocked = stream("game", StreamStatus::Active, 100, 1);
    unlocked.is_locked = false;
    assert!(!contract.check_premium_account_internal(vec![unlocked], &receiver, now));

    // A non-expirable stream does not qualify.
    let mut tame = stream("game", StreamStatus::Active, 100, 1);
    tame.is_expirable = false;
    assert!(!contract.check_premium_account_internal(vec![tame], &receiver, now));

    // One qualifying stream among others is enough.
    let a = stream("other", StreamStatus::Paused, 1, 1);
    let b = stream("game", StreamStatus::Active, 100, 1);
    assert!(contract.check_premium_account_internal(vec![a, b], &receiver, now));
}
