use sweep_pipeline::descriptor::Descriptor;
use sweep_pipeline::errors::SweepError;
use sweep_pipeline::keys::{fresh_key, hex_encode, key_conforms};
use sweep_pipeline::scheduler::{Scheduler, TICK_PERIOD_MILLIS};
use sweep_pipeline::sweep::{
    locktime_for_height, partition_by_token, plan_broadcasts, tx_action, TxAction, TxRecord,
};

fn with_token(token: Option<u32>) -> Descriptor {
    Descriptor::StaticKey { value_sats: 1, token, script: vec![] }
}

#[test]
fn locktime_is_the_height_below_the_limit() {
    assert_eq!(locktime_for_height(0), 0);
    assert_eq!(locktime_for_height(840_000), 840_000);
    assert_eq!(locktime_for_height(499_999_999), 499_999_999);
}

#[test]
fn locktime_falls_back_to_zero_at_the_limit() {
    assert_eq!(locktime_for_height(500_000_000), 0);
    assert_eq!(locktime_for_height(u32::MAX), 0);
}

#[test]
fn partition_groups_by_classification_in_first_seen_order() {
    let descs = vec![
        with_token(None),
        with_token(Some(7)),
        with_token(None),
        with_token(Some(9)),
        with_token(Some(7)),
    ];
    let groups = partition_by_token(&descs);
    assert_eq!(groups.len(), 3);
    assert_eq!(groups[0].token, None);
    assert_eq!(groups[0].members, vec![0, 2]);
    assert_eq!(groups[1].token, Some(7));
    assert_eq!(groups[1].members, vec![1, 4]);
    assert_eq!(groups[2].token, Some(9));
    assert_eq!(groups[2].members, vec![3]);
}

#[test]
fn partition_of_one_classification_is_one_group() {
    let descs = vec![with_token(Some(4)), with_token(Some(4))];
    let groups = partition_by_token(&descs);
    assert_eq!(groups.len(), 1);
    assert_eq!(groups[0].token, Some(4));
    assert_eq!(groups[0].members, vec![0, 1]);
}

#[test]
fn rejection_skips_only_the_rejected_transaction() {
    // One batch, two produced transactions: the token layer rejects the
    // first; the second is still published and broadcast.
    let txs = vec![
        TxRecord { tx_id: 1, has_token_data: true },
        TxRecord { tx_id: 2, has_token_data: true },
    ];
    let rejected = vec![true, false];
    let acts = plan_broadcasts(&txs, &rejected);
    assert_eq!(acts, vec![TxAction::SkipRejected, TxAction::PublishProofThenBroadcast]);
}

#[test]
fn transactions_without_token_data_broadcast_directly() {
    assert_eq!(tx_action(false, false), TxAction::BroadcastOnly);
    assert_eq!(tx_action(true, false), TxAction::PublishProofThenBroadcast);
    assert_eq!(tx_action(true, true), TxAction::SkipRejected);
}

#[test]
fn scheduler_first_tick_is_immediate() {
    let s = Scheduler::new(1_000, TICK_PERIOD_MILLIS);
    assert_eq!(s.next_due, 1_000);
}

#[test]
fn scheduler_keeps_the_period_for_fast_ticks() {
    let mut s = Scheduler::new(1_000, TICK_PERIOD_MILLIS);
    s.tick_completed(1_300);
    assert_eq!(s.next_due, 6_000);
    s.tick_completed(6_001);
    assert_eq!(s.next_due, 11_000);
}

#[test]
fn scheduler_delays_after_a_slow_tick_instead_of_bursting() {
    let mut s = Scheduler::new(1_000, TICK_PERIOD_MILLIS);
    // The tick due at 1000 takes 17 seconds: the next tick is due at its
    // completion, not three times in a row.
    s.tick_completed(18_000);
    assert_eq!(s.next_due, 18_000);
    s.tick_completed(18_400);
    assert_eq!(s.next_due, 23_000);
}

#[test]
fn fresh_keys_conform() {
    let k = fresh_key();
    assert!(key_conforms(&k));
    let other = fresh_key();
    // Two draws of 32 random bytes virtually never coincide; this also
    // shows the generator is not handing back a constant.
    assert_ne!(k, other);
}

#[test]
fn hex_encoding_is_exact() {
    assert_eq!(hex_encode(&vec![0x00, 0xAB, 0xFF]), b"00abff".to_vec());
    assert_eq!(hex_encode(&vec![]), Vec::<u8>::new());
}

#[test]
fn key_shape_is_checked_exactly() {
    assert!(!key_conforms(&b"tmp_abc".to_vec()));
    assert!(!key_conforms(&vec![b'g'; 64]));
    assert!(!key_conforms(&vec![b'A'; 64]));
    assert!(key_conforms(&vec![b'a'; 64]));
    assert!(!key_conforms(&vec![b'a'; 63]));
}

#[test]
fn error_names_are_stable() {
    assert_eq!(SweepError::IntakeScanFailure.describe(), "intake scan failure");
    assert_eq!(SweepError::WalletUnavailable.describe(), "wallet unavailable");
    assert_eq!(SweepError::TokenValidationRejected.describe(), "token validation rejected");
    assert_eq!(SweepError::MalformedDescriptor.describe(), "malformed descriptor");
}
