use sweep_pipeline::codec::{decode_descriptors, encode_descriptor};
use sweep_pipeline::descriptor::Descriptor;
use sweep_pipeline::errors::SweepError;

fn static_key(value_sats: u64, token: Option<u32>, script: Vec<u8>) -> Descriptor {
    Descriptor::StaticKey { value_sats, token, script }
}

#[test]
fn encode_static_exact_bytes() {
    let d = static_key(0x0102030405060708, None, vec![0xAA, 0xBB]);
    let e = encode_descriptor(&d);
    assert_eq!(e, vec![1, 1, 2, 3, 4, 5, 6, 7, 8, 0, 2, 0xAA, 0xBB]);
}

#[test]
fn encode_offered_with_token_exact_bytes() {
    let d = Descriptor::Offered { value_sats: 1, token: Some(0x01020304), script: vec![] };
    let e = encode_descriptor(&d);
    assert_eq!(e, vec![3, 0, 0, 0, 0, 0, 0, 0, 1, 1, 1, 2, 3, 4, 0]);
}

#[test]
fn encode_delayed_exact_bytes() {
    let d = Descriptor::Delayed { value_sats: 2, delay: 0x0405, token: None, script: vec![9] };
    let e = encode_descriptor(&d);
    assert_eq!(e, vec![2, 0, 0, 0, 0, 0, 0, 0, 2, 4, 5, 0, 1, 9]);
}

#[test]
fn single_record_round_trip() {
    let d = static_key(994_421, Some(77), vec![0x51, 0x52, 0x53]);
    let e = encode_descriptor(&d);
    let back = decode_descriptors(&e).expect("valid encoding must decode");
    assert_eq!(back.len(), 1);
    match &back[0] {
        Descriptor::StaticKey { value_sats, token, script } => {
            assert_eq!(*value_sats, 994_421);
            assert_eq!(*token, Some(77));
            assert_eq!(script, &vec![0x51, 0x52, 0x53]);
        },
        _ => panic!("wrong variant decoded"),
    }
}

#[test]
fn two_concatenated_records_decode_to_exactly_two() {
    let d1 = static_key(5, None, vec![0x11; 4]);
    let d2 = Descriptor::Delayed { value_sats: 6, delay: 144, token: Some(3), script: vec![0x22] };
    let mut blob = encode_descriptor(&d1);
    blob.extend_from_slice(&encode_descriptor(&d2));
    let back = decode_descriptors(&blob).expect("concatenation of two valid records");
    assert_eq!(back.len(), 2);
    match &back[0] {
        Descriptor::StaticKey { value_sats, token, script } => {
            assert_eq!(*value_sats, 5);
            assert_eq!(*token, None);
            assert_eq!(script, &vec![0x11; 4]);
        },
        _ => panic!("first record lost its variant"),
    }
    match &back[1] {
        Descriptor::Delayed { value_sats, delay, token, script } => {
            assert_eq!(*value_sats, 6);
            assert_eq!(*delay, 144);
            assert_eq!(*token, Some(3));
            assert_eq!(script, &vec![0x22]);
        },
        _ => panic!("second record lost its variant"),
    }
}

#[test]
fn trailing_garbage_is_rejected() {
    let d = static_key(5, None, vec![]);
    let mut blob = encode_descriptor(&d);
    blob.push(0xFF);
    match decode_descriptors(&blob) {
        Err(e) => assert_eq!(e, SweepError::MalformedDescriptor),
        Ok(_) => panic!("garbage after a record must not decode"),
    }
}

#[test]
fn unknown_tag_is_rejected() {
    let blob = vec![9, 0, 0, 0, 0, 0, 0, 0, 1, 0, 0];
    match decode_descriptors(&blob) {
        Err(e) => assert_eq!(e, SweepError::MalformedDescriptor),
        Ok(_) => panic!("an unknown tag must not decode"),
    }
}

#[test]
fn truncated_record_is_rejected() {
    let d = static_key(5, Some(1), vec![0x33; 10]);
    let mut blob = encode_descriptor(&d);
    blob.pop();
    match decode_descriptors(&blob) {
        Err(e) => assert_eq!(e, SweepError::MalformedDescriptor),
        Ok(_) => panic!("a cut-short record must not decode"),
    }
}

#[test]
fn empty_blob_decodes_to_no_records() {
    let blob: Vec<u8> = Vec::new();
    let back = decode_descriptors(&blob).expect("empty blob holds zero records");
    assert_eq!(back.len(), 0);
}
