use sweep_pipeline::codec::encode_descriptor;
use sweep_pipeline::descriptor::Descriptor;
use sweep_pipeline::keys::key_conforms;
use sweep_pipeline::pipeline::{consolidate_tick, deposit, sweep_tick, Stores};

fn static_key(value_sats: u64, script_len: usize) -> Descriptor {
    Descriptor::StaticKey { value_sats, token: None, script: vec![0x42; script_len] }
}

fn total_bytes(stores: &Stores) -> usize {
    let mut sum = 0;
    for ks in [&stores.intake, &stores.staging, &stores.claims] {
        let mut i = 0;
        while i < ks.len() {
            sum += ks.value_at(i).len();
            i += 1;
        }
    }
    sum
}

#[test]
fn deposit_returns_conforming_keys() {
    let mut stores = Stores::new();
    let key = deposit(&mut stores, vec![1, 2, 3]).expect("fresh deposit");
    assert!(key_conforms(&key));
    assert_eq!(key.len(), 64);
    assert_eq!(stores.intake.len(), 1);
    assert_eq!(stores.intake.value_at(0), &vec![1, 2, 3]);
}

#[test]
fn consolidation_merges_batches_and_keeps_every_descriptor() {
    // Five descriptors spread over three independently deposited entries
    // must come out as one claim batch of exactly five records.
    let mut stores = Stores::new();
    let mut batch1 = encode_descriptor(&static_key(1, 0));
    batch1.extend_from_slice(&encode_descriptor(&static_key(2, 3)));
    let batch2 = encode_descriptor(&static_key(3, 7));
    let mut batch3 = encode_descriptor(&static_key(4, 1));
    batch3.extend_from_slice(&encode_descriptor(&static_key(5, 2)));
    deposit(&mut stores, batch1).expect("fresh deposit");
    deposit(&mut stores, batch2).expect("fresh deposit");
    deposit(&mut stores, batch3).expect("fresh deposit");

    let committed = consolidate_tick(&mut stores).expect("no collisions possible");
    assert!(committed.is_some());
    assert_eq!(stores.intake.len(), 0);
    assert_eq!(stores.staging.len(), 0);
    assert_eq!(stores.claims.len(), 1);

    let work = sweep_tick(&mut stores);
    assert_eq!(work.len(), 1);
    let descs = work[0].descriptors.as_ref().expect("batch must decode");
    assert_eq!(descs.len(), 5);
    let mut values: Vec<u64> = Vec::new();
    for d in descs {
        match d {
            Descriptor::StaticKey { value_sats, .. } => values.push(*value_sats),
            _ => panic!("wrong variant decoded"),
        }
    }
    assert_eq!(values, vec![1, 2, 3, 4, 5]);
    assert_eq!(stores.claims.len(), 0);
}

#[test]
fn consolidation_conserves_bytes() {
    let mut stores = Stores::new();
    deposit(&mut stores, encode_descriptor(&static_key(10, 5))).expect("fresh deposit");
    deposit(&mut stores, encode_descriptor(&static_key(11, 9))).expect("fresh deposit");
    let before = total_bytes(&stores);
    consolidate_tick(&mut stores).expect("no collisions possible");
    assert_eq!(total_bytes(&stores), before);
}

#[test]
fn one_tick_scenario_with_two_framed_descriptors() {
    // An intake entry under a 64-hex-character key whose value concatenates
    // a 40-byte and a 55-byte self-framed descriptor: one tick must leave
    // exactly one 95-byte claim entry and empty intake and staging; the
    // following sweep tick must leave the claim queue empty.
    let mut stores = Stores::new();
    let d40 = static_key(21_000, 29);
    let d55 = Descriptor::Delayed { value_sats: 9, delay: 6, token: None, script: vec![7; 42] };
    let e40 = encode_descriptor(&d40);
    let e55 = encode_descriptor(&d55);
    assert_eq!(e40.len(), 40);
    assert_eq!(e55.len(), 55);
    let mut blob = e40;
    blob.extend_from_slice(&e55);

    let key: Vec<u8> = b"a1b2c3d4a1b2c3d4a1b2c3d4a1b2c3d4a1b2c3d4a1b2c3d4a1b2c3d4a1b2c3d4".to_vec();
    assert_eq!(key.len(), 64);
    assert!(stores.intake.write(key, blob));

    consolidate_tick(&mut stores).expect("no collisions possible");
    assert_eq!(stores.claims.len(), 1);
    assert_eq!(stores.claims.value_at(0).len(), 95);
    assert_eq!(stores.intake.len(), 0);
    assert_eq!(stores.staging.len(), 0);

    let work = sweep_tick(&mut stores);
    assert_eq!(work.len(), 1);
    assert_eq!(work[0].descriptors.as_ref().expect("batch must decode").len(), 2);
    assert_eq!(stores.claims.len(), 0);
}

#[test]
fn temporary_names_are_left_untouched() {
    // An intake entry whose name is not 64 hex characters is a partial or
    // temporary write: consolidation must leave it in intake and must not
    // take its bytes into any claim entry.
    let mut stores = Stores::new();
    let tmp_value = vec![0xDE, 0xAD, 0xBE, 0xEF];
    assert!(stores.intake.write(b"tmp_abc".to_vec(), tmp_value.clone()));
    let proper = encode_descriptor(&static_key(5, 2));
    deposit(&mut stores, proper.clone()).expect("fresh deposit");

    let committed = consolidate_tick(&mut stores).expect("no collisions possible");
    assert!(committed.is_some());
    assert_eq!(stores.intake.len(), 1);
    assert_eq!(stores.intake.key_at(0), &b"tmp_abc".to_vec());
    assert_eq!(stores.intake.value_at(0), &tmp_value);
    assert_eq!(stores.claims.len(), 1);
    assert_eq!(stores.claims.value_at(0), &proper);
}

#[test]
fn temporary_name_alone_is_a_quiet_tick() {
    let mut stores = Stores::new();
    assert!(stores.intake.write(b"tmp_abc".to_vec(), vec![1, 2, 3]));
    let committed = consolidate_tick(&mut stores).expect("no collisions possible");
    assert!(committed.is_none());
    assert_eq!(stores.intake.len(), 1);
    assert_eq!(stores.claims.len(), 0);
}

#[test]
fn empty_intake_is_a_no_op() {
    let mut stores = Stores::new();
    let committed = consolidate_tick(&mut stores).expect("no collisions possible");
    assert!(committed.is_none());
    assert_eq!(stores.intake.len(), 0);
    assert_eq!(stores.staging.len(), 0);
    assert_eq!(stores.claims.len(), 0);
}

#[test]
fn empty_batches_consolidate_to_nothing() {
    // Entries holding zero descriptors are drained without producing a
    // claim entry.
    let mut stores = Stores::new();
    deposit(&mut stores, Vec::new()).expect("fresh deposit");
    deposit(&mut stores, Vec::new()).expect("fresh deposit");
    let committed = consolidate_tick(&mut stores).expect("no collisions possible");
    assert!(committed.is_none());
    assert_eq!(stores.intake.len(), 0);
    assert_eq!(stores.staging.len(), 0);
    assert_eq!(stores.claims.len(), 0);
}

#[test]
fn failed_batch_does_not_stop_later_deposits() {
    // A tick whose batch the wallet cannot serve (the caller resolves no
    // key and signs nothing) still ends with the claim queue cleared, and a
    // deposit made after the failed tick is consolidated and swept
    // normally on the next tick.
    let mut stores = Stores::new();
    deposit(&mut stores, encode_descriptor(&static_key(1, 1))).expect("fresh deposit");
    consolidate_tick(&mut stores).expect("no collisions possible");
    let work = sweep_tick(&mut stores);
    assert_eq!(work.len(), 1);
    // The wallet was unavailable for this batch: the caller drops the work,
    // and the entry is already gone from the claim queue.
    assert_eq!(stores.claims.len(), 0);

    deposit(&mut stores, encode_descriptor(&static_key(2, 2))).expect("fresh deposit");
    consolidate_tick(&mut stores).expect("no collisions possible");
    let work2 = sweep_tick(&mut stores);
    assert_eq!(work2.len(), 1);
    let descs = work2[0].descriptors.as_ref().expect("batch must decode");
    assert_eq!(descs.len(), 1);
    match &descs[0] {
        Descriptor::StaticKey { value_sats, .. } => assert_eq!(*value_sats, 2),
        _ => panic!("wrong variant decoded"),
    }
}

#[test]
fn staged_key_collision_aborts_the_tick_unchanged() {
    // A conforming intake key that is already present in staging cannot be
    // relocated atomically; the tick aborts without touching anything and
    // is retried on the next tick.
    let mut stores = Stores::new();
    let key: Vec<u8> = vec![b'c'; 64];
    assert!(stores.intake.write(key.clone(), vec![1]));
    assert!(stores.staging.write(key, vec![2]));
    match consolidate_tick(&mut stores) {
        Err(e) => assert_eq!(e, sweep_pipeline::errors::SweepError::RelocationFailure),
        Ok(_) => panic!("a colliding relocation must abort the tick"),
    }
    assert_eq!(stores.intake.len(), 1);
    assert_eq!(stores.staging.len(), 1);
    assert_eq!(stores.claims.len(), 0);
}

#[test]
fn undecodable_batch_still_clears_the_queue() {
    let mut stores = Stores::new();
    deposit(&mut stores, vec![0xFF, 0xFF]).expect("fresh deposit");
    consolidate_tick(&mut stores).expect("no collisions possible");
    let work = sweep_tick(&mut stores);
    assert_eq!(work.len(), 1);
    assert!(work[0].descriptors.is_none());
    assert_eq!(stores.claims.len(), 0);
}
