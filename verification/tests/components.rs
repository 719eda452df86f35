use cipher::{Array, BlockCipherDecrypt, BlockCipherEncrypt, KeyInit};
use cipher::consts::{U20, U8};
use longboy::{Cipher, Constants, Mirroring, PortSet, ProtocolError};
use longboy::{encode_mapper_heartbeat, encode_session_heartbeat, parse_mapper_heartbeat,
    parse_session_heartbeat};

#[test]
fn constants_derived_values() {
    let c = Constants::new(8, 3).unwrap();
    assert_eq!(c.datagram_size(), 28);
    assert_eq!(c.max_cycle(), 65535);
    assert_eq!(c.max_buffered(), 8);

    let c = Constants::new(128, 3).unwrap();
    assert_eq!(c.datagram_size(), 388);
    assert_eq!(c.max_cycle(), 65535);
    assert_eq!(c.max_buffered(), 8);

    let c = Constants::new(8, 1).unwrap();
    assert_eq!(c.datagram_size(), 12);
    assert_eq!(c.max_cycle(), 65535);
}

#[test]
fn constants_reject_unsupported_pairs() {
    assert_eq!(Constants::new(7, 3).unwrap_err(), ProtocolError::InvalidParameters);
    assert_eq!(Constants::new(8, 2).unwrap_err(), ProtocolError::InvalidParameters);
    assert_eq!(Constants::new(256, 1).unwrap_err(), ProtocolError::InvalidParameters);
    assert_eq!(Constants::new(0, 0).unwrap_err(), ProtocolError::InvalidParameters);
    assert!(longboy::Sender::new(8, 2, 1, longboy::CounterSource::new(1)).is_err());
    assert!(longboy::Receiver::new(9, 3, 1, longboy::MaxCounterSink::new()).is_err());
}

#[test]
fn header_cipher_matches_rc5_reference() {
    let key: u64 = 0x0123456789ABCDEF;
    let c = Cipher::new(key);

    let mut block = vec![1u8, 2, 3, 4];
    c.encrypt_header(&mut block);

    let reference: rc5::RC5<u16, U20, U8> = rc5::RC5::new(&Array::from(key.to_le_bytes()));
    let mut arr = Array::from([1u8, 2, 3, 4]);
    reference.encrypt_block(&mut arr);
    assert_eq!(block, arr.as_slice().to_vec());
    assert_ne!(block, vec![1u8, 2, 3, 4]);

    c.decrypt_header(&mut block);
    assert_eq!(block, vec![1u8, 2, 3, 4]);
}

#[test]
fn slot_cipher_matches_rc5_reference() {
    let key: u64 = 0xDEADBEEFDEADBEEF;
    let c = Cipher::new(key);

    let mut block = vec![10u8, 20, 30, 40, 50, 60, 70, 80, 90, 100, 110, 120, 130, 140, 150, 160];
    c.encrypt_slot(&mut block);

    let reference: rc5::RC5<u32, U20, U8> = rc5::RC5::new(&Array::from(key.to_le_bytes()));
    let mut first = Array::from([10u8, 20, 30, 40, 50, 60, 70, 80]);
    let mut second = Array::from([90u8, 100, 110, 120, 130, 140, 150, 160]);
    reference.encrypt_block(&mut first);
    reference.encrypt_block(&mut second);
    let mut expected = first.as_slice().to_vec();
    expected.extend_from_slice(second.as_slice().to_vec().as_slice());
    assert_eq!(block, expected);

    c.decrypt_slot(&mut block);
    assert_eq!(block, vec![10u8, 20, 30, 40, 50, 60, 70, 80, 90, 100, 110, 120, 130, 140, 150, 160]);
}

#[test]
fn slot_cipher_round_trip_all_sizes() {
    let c = Cipher::new(0x1122334455667788);
    for &size in &[8usize, 16, 32, 64, 128] {
        let original: Vec<u8> = (0..size).map(|i| (i * 7 + 3) as u8).collect();
        let mut block = original.clone();
        c.encrypt_slot(&mut block);
        assert_ne!(block, original);
        c.decrypt_slot(&mut block);
        assert_eq!(block, original);
    }
}

#[test]
fn decrypt_header_inverts_with_reference_ciphertext() {
    let key: u64 = 0x42;
    let reference: rc5::RC5<u16, U20, U8> = rc5::RC5::new(&Array::from(key.to_le_bytes()));
    let mut arr = Array::from([7u8, 8, 9, 10]);
    reference.encrypt_block(&mut arr);

    let mut block = arr.as_slice().to_vec();
    Cipher::new(key).decrypt_header(&mut block);
    assert_eq!(block, vec![7u8, 8, 9, 10]);

    let reference32: rc5::RC5<u32, U20, U8> = rc5::RC5::new(&Array::from(key.to_le_bytes()));
    let mut arr32 = Array::from([1u8, 2, 3, 4, 5, 6, 7, 8]);
    reference32.decrypt_block(&mut arr32);
    let mut slot = vec![1u8, 2, 3, 4, 5, 6, 7, 8];
    Cipher::new(key).decrypt_slot(&mut slot);
    assert_eq!(slot, arr32.as_slice().to_vec());
}

#[test]
fn mapper_heartbeat_round_trip() {
    let msg = encode_mapper_heartbeat(0xAABBCCDD11223344, Mirroring::Background);
    assert_eq!(msg.len(), 9);
    assert_eq!(msg[8], 1);
    let (session_id, mirroring) = parse_mapper_heartbeat(&msg).unwrap();
    assert_eq!(session_id, 0xAABBCCDD11223344);
    assert_eq!(mirroring, Mirroring::Background);
}

#[test]
fn mapper_heartbeat_rejects_bad_input() {
    assert!(parse_mapper_heartbeat(&vec![0u8; 8]).is_none());
    assert!(parse_mapper_heartbeat(&vec![0u8; 10]).is_none());
    let mut msg = encode_mapper_heartbeat(5, Mirroring::Voice);
    msg[8] = 3;
    assert!(parse_mapper_heartbeat(&msg).is_none());
}

#[test]
fn session_heartbeat_round_trip() {
    let msg = encode_session_heartbeat(0x0102030405060708);
    assert_eq!(msg.len(), 8);
    assert_eq!(msg, vec![8u8, 7, 6, 5, 4, 3, 2, 1]);
    assert_eq!(parse_session_heartbeat(&msg).unwrap(), 0x0102030405060708);
    assert!(parse_session_heartbeat(&vec![0u8; 9]).is_none());
    assert!(parse_session_heartbeat(&vec![0u8; 7]).is_none());
}

#[test]
fn mirroring_indices() {
    assert_eq!(Mirroring::AudioVideo.into_usize(), 0);
    assert_eq!(Mirroring::Background.into_usize(), 1);
    assert_eq!(Mirroring::Voice.into_usize(), 2);
    assert_eq!(Mirroring::from_usize(0), Some(Mirroring::AudioVideo));
    assert_eq!(Mirroring::from_usize(1), Some(Mirroring::Background));
    assert_eq!(Mirroring::from_usize(2), Some(Mirroring::Voice));
    assert_eq!(Mirroring::from_usize(3), None);
    assert_eq!(Mirroring::from_usize(255), None);
}

#[test]
fn port_set_refuses_reuse() {
    let mut ports = PortSet::new();
    assert!(ports.claim(9000));
    assert!(ports.claim(9001));
    assert!(!ports.claim(9000));
    assert!(!ports.claim(9001));
    assert!(ports.claim(9002));
}
