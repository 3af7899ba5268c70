//! The byte format of one block's values.
use alloy_primitives::KECCAK256_EMPTY;
use witness::primitives::{AccountInfo, B256, U256};
use witness::stream::{put_account, put_slot, StreamError, StreamReader};

type N = alloy_primitives::U256;
type H = alloy_primitives::B256;

fn number(value: N) -> U256 {
    U256 { limbs: value.into_limbs() }
}

fn hash(value: H) -> B256 {
    B256(value.0)
}

fn account(nonce: u64, balance: N, code_hash: H) -> AccountInfo {
    AccountInfo { nonce, balance: number(balance), code_hash: hash(code_hash) }
}

#[test]
fn accounts_and_slots_round_trip() {
    let mut out = Vec::new();
    let accounts = [
        None,
        Some(account(0, N::ZERO, KECCAK256_EMPTY)),
        Some(account(1, N::from(1), KECCAK256_EMPTY)),
        Some(account(u64::MAX, N::MAX, H::repeat_byte(0xAB))),
        Some(account(300, N::from(1u128 << 100), H::ZERO)),
    ];
    let slots = [N::ZERO, N::from(1), N::from(256), N::MAX, N::from(1u128 << 64)];
    for (account, slot) in accounts.iter().zip(&slots) {
        put_account(&mut out, account.as_ref());
        put_slot(&mut out, number(*slot));
    }

    let mut reader = StreamReader::new(&out);
    for (account, slot) in accounts.iter().zip(&slots) {
        assert_eq!(reader.next_account().unwrap(), *account);
        assert_eq!(reader.next_slot().unwrap(), number(*slot));
    }
    assert_eq!(reader.remaining(), 0);
    assert_eq!(reader.next_account(), Err(StreamError::Exhausted { consumed: out.len() }));
}

#[test]
fn the_longest_account_fits_its_length_byte() {
    let mut out = Vec::new();
    put_account(&mut out, Some(&account(u64::MAX, N::MAX, H::repeat_byte(1))));
    assert_eq!(out.len(), 1 + 75);
    assert_eq!(out[0], 75);
}

#[test]
fn an_absent_account_is_one_zero_byte_and_a_zero_slot_too() {
    let mut out = Vec::new();
    put_account(&mut out, None);
    put_slot(&mut out, number(N::ZERO));
    assert_eq!(out, [0, 0]);
}

#[test]
fn a_truncated_entry_is_malformed_not_a_panic() {
    let bytes = [5u8, 1, 2];
    let mut reader = StreamReader::new(&bytes);
    assert!(matches!(reader.next_slot(), Err(StreamError::Malformed { at: 0, .. })));
}

#[test]
fn entries_are_spelled_byte_by_byte() {
    let mut out = Vec::new();
    put_slot(&mut out, U256 { limbs: [0x0102, 0, 0, 0] });
    assert_eq!(out, [2, 1, 2]);
    out.clear();
    put_slot(&mut out, U256 { limbs: [0, 1, 0, 0] });
    assert_eq!(out, [9, 1, 0, 0, 0, 0, 0, 0, 0, 0]);
    out.clear();
    let plain = AccountInfo {
        nonce: 0x0100,
        balance: U256 { limbs: [7, 0, 0, 0] },
        code_hash: hash(KECCAK256_EMPTY),
    };
    put_account(&mut out, Some(&plain));
    assert_eq!(out, [6, 2, 1, 0, 1, 7, 0]);
    out.clear();
    let coded = AccountInfo { code_hash: B256([9; 32]), ..plain };
    put_account(&mut out, Some(&coded));
    let mut expected = vec![38, 2, 1, 0, 1, 7, 1];
    expected.extend_from_slice(&[9; 32]);
    assert_eq!(out, expected);
}

#[test]
fn an_entry_goes_behind_what_is_there() {
    let mut out = vec![0xEE];
    put_slot(&mut out, U256 { limbs: [5, 0, 0, 0] });
    put_account(&mut out, None);
    assert_eq!(out, [0xEE, 1, 5, 0]);
}

#[test]
fn reading_counts_bytes_and_can_be_repeated_from_a_copy() {
    let bytes = [1u8, 5, 0, 2, 1, 0];
    let mut reader = StreamReader::new(&bytes);
    assert_eq!((reader.consumed(), reader.remaining()), (0, 6));
    assert_eq!(reader.next_slot(), Ok(U256 { limbs: [5, 0, 0, 0] }));
    assert_eq!((reader.consumed(), reader.remaining()), (2, 4));
    let mut copy = reader.clone();
    assert_eq!(reader.next_account(), Ok(None));
    assert_eq!(copy.next_slot(), Ok(U256 { limbs: [0; 4] }));
    assert_eq!(reader.next_slot(), Ok(U256 { limbs: [256, 0, 0, 0] }));
    assert_eq!(reader.remaining(), 0);
    assert_eq!(copy.consumed(), 3);
    assert_eq!(reader.next_slot(), Err(StreamError::Exhausted { consumed: 6 }));
}

fn account_fault(entry: &[u8]) -> (usize, &'static str) {
    let mut bytes = vec![0u8];
    bytes.push(entry.len() as u8);
    bytes.extend_from_slice(entry);
    let mut reader = StreamReader::new(&bytes);
    assert_eq!(reader.next_account(), Ok(None));
    let read = reader.next_account();
    assert_eq!(reader.remaining(), 0, "the entry is consumed all the same");
    match read {
        Err(StreamError::Malformed { at, what }) => (at, what),
        other => panic!("{other:?}"),
    }
}

#[test]
fn every_part_of_an_account_can_be_malformed() {
    assert_eq!(account_fault(&[2, 1]), (1, "nonce"));
    assert_eq!(account_fault(&[9, 1, 2, 3, 4, 5, 6, 7, 8, 9]), (1, "nonce wider than 64 bits"));
    assert_eq!(account_fault(&[0]), (1, "balance"));
    assert_eq!(account_fault(&[0, 3, 1]), (1, "balance"));
    let mut wide = vec![0, 33];
    wide.extend_from_slice(&[1; 33]);
    wide.push(0);
    assert_eq!(account_fault(&wide), (1, "balance wider than 256 bits"));
    assert_eq!(account_fault(&[0, 0]), (1, "code hash"));
    assert_eq!(account_fault(&[0, 0, 2]), (1, "code hash"));
    assert_eq!(account_fault(&[0, 0, 1, 7]), (1, "code hash"));
    assert_eq!(account_fault(&[0, 0, 0, 0]), (1, "code hash"));
}

#[test]
fn a_slot_can_be_too_wide() {
    let mut bytes = vec![33u8];
    bytes.extend_from_slice(&[1; 33]);
    let mut reader = StreamReader::new(&bytes);
    assert_eq!(
        reader.next_slot(),
        Err(StreamError::Malformed { at: 0, what: "slot value wider than 256 bits" }),
    );
}

#[test]
fn a_truncated_entry_is_not_consumed() {
    let bytes = [5u8, 1, 2];
    let mut reader = StreamReader::new(&bytes);
    let fault = Err(StreamError::Malformed {
        at: 0,
        what: "entry runs past the end of the stream",
    });
    assert_eq!(reader.next_slot(), fault);
    assert_eq!(reader.consumed(), 0);
}

#[test]
fn leading_zeros_read_as_nothing() {
    let bytes = [3u8, 0, 0, 4];
    let mut reader = StreamReader::new(&bytes);
    assert_eq!(reader.next_slot(), Ok(U256 { limbs: [4, 0, 0, 0] }));
}
