use switchboard_accounts::buffer_relayer::{HEAD_LEN, ROUND_LEN};
use switchboard_accounts::{AccountError, BufferRelayerAccountData, BufferRelayerRound};

const RELAYER_TAG_BYTES: [u8; 8] = [50, 35, 51, 115, 169, 219, 158, 52];
const QUEUE_TAG_BYTES: [u8; 8] = [192, 53, 130, 67, 234, 207, 39, 171];

fn round_bytes_of(
    num_success: u32,
    num_error: u32,
    round_open_slot: u64,
    round_open_timestamp: i64,
    oracle_pubkey: [u8; 32],
) -> Vec<u8> {
    let mut bytes = Vec::new();
    bytes.extend_from_slice(&num_success.to_le_bytes());
    bytes.extend_from_slice(&num_error.to_le_bytes());
    bytes.extend_from_slice(&round_open_slot.to_le_bytes());
    bytes.extend_from_slice(&round_open_timestamp.to_le_bytes());
    bytes.extend_from_slice(&oracle_pubkey);
    bytes
}

/// An account in which every field holds something that no other field holds.
fn relayer_bytes(is_locked: u8, payload: &[u8]) -> Vec<u8> {
    let mut bytes = Vec::new();
    bytes.extend_from_slice(&RELAYER_TAG_BYTES);
    bytes.extend_from_slice(&[0x11; 32]);
    bytes.extend_from_slice(&[0x22; 32]);
    bytes.extend_from_slice(&[0x33; 32]);
    bytes.extend_from_slice(&[0x44; 32]);
    bytes.extend_from_slice(&[0x55; 32]);
    bytes.extend_from_slice(&[0x66; 32]);
    bytes.extend_from_slice(&30u32.to_le_bytes());
    bytes.push(is_locked);
    bytes.extend_from_slice(&round_bytes_of(1, 2, 3, 4, [0x77; 32]));
    bytes.extend_from_slice(&round_bytes_of(5, 6, 7, 1_700_000_000, [0x88; 32]));
    bytes.extend_from_slice(&(payload.len() as u32).to_le_bytes());
    bytes.extend_from_slice(payload);
    bytes
}

fn relayer_at(timestamp: i64) -> BufferRelayerAccountData {
    let mut account = BufferRelayerAccountData::default();
    account.latest_confirmed_round.round_open_timestamp = timestamp;
    account
}

#[test]
fn relayer_layout_widths() {
    assert_eq!(ROUND_LEN, 56);
    assert_eq!(HEAD_LEN, 313);
    assert_eq!(relayer_bytes(0, &[]).len(), 8 + 313);
    assert_eq!(BufferRelayerAccountData::discriminator(), RELAYER_TAG_BYTES);
}

#[test]
fn relayer_decodes_every_field_in_order() {
    let bytes = relayer_bytes(1, &[9, 8, 7, 6, 5]);
    let account = BufferRelayerAccountData::new(&bytes).unwrap();
    assert_eq!(account.name, [0x11; 32]);
    assert_eq!(account.queue_pubkey, [0x22; 32]);
    assert_eq!(account.escrow, [0x33; 32]);
    assert_eq!(account.authority, [0x44; 32]);
    assert_eq!(account.job_pubkey, [0x55; 32]);
    assert_eq!(account.job_hash, [0x66; 32]);
    assert_eq!(account.min_update_delay_seconds, 30);
    assert!(account.is_locked);
    assert_eq!(account.current_round.num_success, 1);
    assert_eq!(account.current_round.num_error, 2);
    assert_eq!(account.current_round.round_open_slot, 3);
    assert_eq!(account.current_round.round_open_timestamp, 4);
    assert_eq!(account.current_round.oracle_pubkey, [0x77; 32]);
    assert_eq!(account.latest_confirmed_round.num_success, 5);
    assert_eq!(account.latest_confirmed_round.num_error, 6);
    assert_eq!(account.latest_confirmed_round.round_open_slot, 7);
    assert_eq!(account.latest_confirmed_round.round_open_timestamp, 1_700_000_000);
    assert_eq!(account.latest_confirmed_round.oracle_pubkey, [0x88; 32]);
    assert_eq!(account.result, vec![9, 8, 7, 6, 5]);
    assert_eq!(account.get_result(), &vec![9u8, 8, 7, 6, 5]);
}

#[test]
fn relayer_with_an_empty_payload() {
    let bytes = relayer_bytes(0, &[]);
    let account = BufferRelayerAccountData::new(&bytes).unwrap();
    assert!(!account.is_locked);
    assert!(account.get_result().is_empty());
}

#[test]
fn relayer_decode_is_deterministic() {
    let bytes = relayer_bytes(1, &[1, 2, 3]);
    let first = BufferRelayerAccountData::new(&bytes).unwrap();
    let second = BufferRelayerAccountData::new(&bytes).unwrap();
    assert_eq!(format!("{:?}", first), format!("{:?}", second));
}

#[test]
fn relayer_shorter_than_the_tag_is_too_short() {
    let bytes = relayer_bytes(0, &[1, 2, 3]);
    for len in 0..8usize {
        let res = BufferRelayerAccountData::new(&bytes[..len]);
        assert_eq!(res.err(), Some(AccountError::AccountTooShort), "length {}", len);
        let junk = vec![0x3Cu8; len];
        let res = BufferRelayerAccountData::new(&junk);
        assert_eq!(res.err(), Some(AccountError::AccountTooShort), "length {}", len);
    }
}

#[test]
fn relayer_with_another_tag_is_a_mismatch() {
    let mut bytes = relayer_bytes(0, &[1, 2, 3]);
    bytes[..8].copy_from_slice(&QUEUE_TAG_BYTES);
    let res = BufferRelayerAccountData::new(&bytes);
    assert_eq!(res.err(), Some(AccountError::DiscriminatorMismatch));
    for at in 0..8usize {
        let mut bytes = relayer_bytes(0, &[1, 2, 3]);
        bytes[at] = bytes[at].wrapping_add(1);
        let res = BufferRelayerAccountData::new(&bytes);
        assert_eq!(res.err(), Some(AccountError::DiscriminatorMismatch), "byte {}", at);
    }
    let res = BufferRelayerAccountData::new(&[0u8; 8]);
    assert_eq!(res.err(), Some(AccountError::DiscriminatorMismatch));
}

#[test]
fn relayer_cut_short_is_read_exhausted() {
    let bytes = relayer_bytes(1, &[9, 8, 7, 6, 5]);
    assert_eq!(bytes.len(), 326);
    for len in 8..bytes.len() {
        let res = BufferRelayerAccountData::new(&bytes[..len]);
        assert_eq!(res.err(), Some(AccountError::ReadExhausted), "length {}", len);
    }
    assert!(BufferRelayerAccountData::new(&bytes).is_ok());
}

#[test]
fn relayer_payload_longer_than_the_buffer_is_read_exhausted() {
    let mut bytes = relayer_bytes(0, &[1, 2, 3]);
    bytes[8 + 309..8 + 313].copy_from_slice(&4u32.to_le_bytes());
    let res = BufferRelayerAccountData::new(&bytes);
    assert_eq!(res.err(), Some(AccountError::ReadExhausted));
    bytes[8 + 309..8 + 313].copy_from_slice(&u32::MAX.to_le_bytes());
    let res = BufferRelayerAccountData::new(&bytes);
    assert_eq!(res.err(), Some(AccountError::ReadExhausted));
}

#[test]
fn relayer_lock_flag_must_be_zero_or_one() {
    for flag in [2u8, 3, 0x80, 0xFF] {
        let bytes = relayer_bytes(flag, &[1, 2, 3]);
        let res = BufferRelayerAccountData::new(&bytes);
        assert_eq!(res.err(), Some(AccountError::ReadExhausted), "flag {}", flag);
    }
    assert!(!BufferRelayerAccountData::new(&relayer_bytes(0, &[])).unwrap().is_locked);
    assert!(BufferRelayerAccountData::new(&relayer_bytes(1, &[])).unwrap().is_locked);
}

#[test]
fn bytes_behind_the_relayer_payload_are_ignored() {
    let mut bytes = relayer_bytes(1, &[4, 5]);
    bytes.extend_from_slice(&[0xAB; 40]);
    let account = BufferRelayerAccountData::new(&bytes).unwrap();
    assert_eq!(account.result, vec![4, 5]);
}

#[test]
fn relayer_deserialize_advances_the_reader() {
    let mut bytes = relayer_bytes(1, &[4, 5]);
    bytes.extend_from_slice(&[0xAB, 0xCD]);
    let mut reader: &[u8] = &bytes[8..];
    let account = BufferRelayerAccountData::deserialize(&mut reader).unwrap();
    assert_eq!(account.result, vec![4, 5]);
    assert_eq!(reader, &[0xAB, 0xCD]);

    let short = relayer_bytes(1, &[4, 5]);
    let mut reader: &[u8] = &short[8..short.len() - 1];
    let before = reader;
    let res = BufferRelayerAccountData::deserialize(&mut reader);
    assert_eq!(res.err(), Some(AccountError::ReadExhausted));
    assert_eq!(reader, before);
}

#[test]
fn swapping_two_fields_swaps_what_is_decoded() {
    let bytes = relayer_bytes(1, &[1, 2, 3]);
    let base = BufferRelayerAccountData::new(&bytes).unwrap();

    // escrow and job_hash
    let mut swapped = bytes.clone();
    swapped[8 + 64..8 + 96].copy_from_slice(&bytes[8 + 160..8 + 192]);
    swapped[8 + 160..8 + 192].copy_from_slice(&bytes[8 + 64..8 + 96]);
    let account = BufferRelayerAccountData::new(&swapped).unwrap();
    assert_eq!(account.escrow, base.job_hash);
    assert_eq!(account.job_hash, base.escrow);
    assert_eq!(account.name, base.name);
    assert_eq!(account.queue_pubkey, base.queue_pubkey);
    assert_eq!(account.authority, base.authority);
    assert_eq!(account.job_pubkey, base.job_pubkey);
    assert_eq!(account.min_update_delay_seconds, base.min_update_delay_seconds);
    assert_eq!(account.result, base.result);

    // min_update_delay_seconds and the error count of the current round
    let mut swapped = bytes.clone();
    swapped[8 + 192..8 + 196].copy_from_slice(&bytes[8 + 201..8 + 205]);
    swapped[8 + 201..8 + 205].copy_from_slice(&bytes[8 + 192..8 + 196]);
    let account = BufferRelayerAccountData::new(&swapped).unwrap();
    assert_eq!(account.min_update_delay_seconds, 2);
    assert_eq!(account.current_round.num_error, 30);
    assert_eq!(account.current_round.num_success, 1);

    // the two oracles
    let mut swapped = bytes.clone();
    swapped[8 + 221..8 + 253].copy_from_slice(&bytes[8 + 277..8 + 309]);
    swapped[8 + 277..8 + 309].copy_from_slice(&bytes[8 + 221..8 + 253]);
    let account = BufferRelayerAccountData::new(&swapped).unwrap();
    assert_eq!(account.current_round.oracle_pubkey, [0x88; 32]);
    assert_eq!(account.latest_confirmed_round.oracle_pubkey, [0x77; 32]);

    // slot and timestamp of the last confirmed round: the bytes change
    // places, and each field reads them in its own way
    let mut swapped = bytes.clone();
    swapped[8 + 261..8 + 269].copy_from_slice(&bytes[8 + 269..8 + 277]);
    swapped[8 + 269..8 + 277].copy_from_slice(&bytes[8 + 261..8 + 269]);
    let account = BufferRelayerAccountData::new(&swapped).unwrap();
    assert_eq!(account.latest_confirmed_round.round_open_slot, 1_700_000_000);
    assert_eq!(account.latest_confirmed_round.round_open_timestamp, 7);
}

#[test]
fn check_staleness_at_the_boundary() {
    let account = relayer_at(1_000);
    assert_eq!(account.check_staleness(1_300, 300), Ok(()));
    assert_eq!(account.check_staleness(1_301, 300), Err(AccountError::StaleFeed));
    assert_eq!(account.check_staleness(1_299, 300), Ok(()));
    assert_eq!(account.check_staleness(1_000, 0), Ok(()));
    assert_eq!(account.check_staleness(1_001, 0), Err(AccountError::StaleFeed));
    assert_eq!(account.check_staleness(999, 0), Ok(()));
    assert_eq!(account.check_staleness(999, -1), Ok(()));
    assert_eq!(account.check_staleness(1_000, -1), Err(AccountError::StaleFeed));
}

#[test]
fn check_staleness_does_not_overflow() {
    let oldest = relayer_at(i64::MIN);
    assert_eq!(oldest.check_staleness(i64::MAX, i64::MAX), Err(AccountError::StaleFeed));
    assert_eq!(oldest.check_staleness(-1, i64::MAX), Ok(()));
    assert_eq!(oldest.check_staleness(0, i64::MAX), Err(AccountError::StaleFeed));
    let newest = relayer_at(i64::MAX);
    assert_eq!(newest.check_staleness(i64::MIN, i64::MIN), Ok(()));
    assert_eq!(newest.check_staleness(i64::MIN, 0), Ok(()));
    assert_eq!(newest.check_staleness(0, i64::MIN), Err(AccountError::StaleFeed));
}

#[test]
fn check_staleness_of_a_decoded_account() {
    let bytes = relayer_bytes(0, &[1]);
    let account = BufferRelayerAccountData::new(&bytes).unwrap();
    assert_eq!(account.check_staleness(1_700_000_300, 300), Ok(()));
    assert_eq!(account.check_staleness(1_700_000_301, 300), Err(AccountError::StaleFeed));
}

#[test]
fn round_serialize_writes_the_fields_in_order() {
    let round = BufferRelayerRound {
        num_success: 0x0403_0201,
        num_error: 0x0807_0605,
        round_open_slot: 0x100F_0E0D_0C0B_0A09,
        round_open_timestamp: -2,
        oracle_pubkey: [0x42; 32],
    };
    let mut out = vec![0xEEu8];
    round.serialize(&mut out);
    let mut want = vec![0xEEu8];
    want.extend_from_slice(&[1, 2, 3, 4, 5, 6, 7, 8, 9, 10, 11, 12, 13, 14, 15, 16]);
    want.extend_from_slice(&[0xFE, 0xFF, 0xFF, 0xFF, 0xFF, 0xFF, 0xFF, 0xFF]);
    want.extend_from_slice(&[0x42; 32]);
    assert_eq!(out, want);
    assert_eq!(out.len(), 1 + 56);
}

#[test]
fn round_survives_a_round_trip() {
    let round = BufferRelayerRound {
        num_success: u32::MAX,
        num_error: 7,
        round_open_slot: u64::MAX - 1,
        round_open_timestamp: i64::MIN,
        oracle_pubkey: [0x99; 32],
    };
    let mut out = Vec::new();
    round.serialize(&mut out);
    out.extend_from_slice(&[1, 2, 3]);
    let mut reader: &[u8] = &out;
    let back = BufferRelayerRound::deserialize_reader(&mut reader).unwrap();
    assert_eq!(back.num_success, u32::MAX);
    assert_eq!(back.num_error, 7);
    assert_eq!(back.round_open_slot, u64::MAX - 1);
    assert_eq!(back.round_open_timestamp, i64::MIN);
    assert_eq!(back.oracle_pubkey, [0x99; 32]);
    assert_eq!(reader, &[1, 2, 3]);
}

#[test]
fn round_from_a_short_reader_is_read_exhausted() {
    let bytes = round_bytes_of(1, 2, 3, 4, [5; 32]);
    for len in 0..56usize {
        let mut reader: &[u8] = &bytes[..len];
        let res = BufferRelayerRound::deserialize_reader(&mut reader);
        assert_eq!(res.err(), Some(AccountError::ReadExhausted), "length {}", len);
        assert_eq!(reader.len(), len);
    }
}

#[test]
fn defaults_are_empty() {
    let round = BufferRelayerRound::default();
    assert_eq!(round.num_success, 0);
    assert_eq!(round.num_error, 0);
    assert_eq!(round.round_open_slot, 0);
    assert_eq!(round.round_open_timestamp, 0);
    assert_eq!(round.oracle_pubkey, [0u8; 32]);
    let account = BufferRelayerAccountData::default();
    assert_eq!(account.name, [0u8; 32]);
    assert_eq!(account.job_hash, [0u8; 32]);
    assert_eq!(account.min_update_delay_seconds, 0);
    assert!(!account.is_locked);
    assert_eq!(account.current_round.oracle_pubkey, [0u8; 32]);
    assert_eq!(account.latest_confirmed_round.round_open_timestamp, 0);
    assert!(account.get_result().is_empty());
}
