//! BLAKE3 roots.
use witness::primitives::B256;
use witness::roots::{
    calculate_receipt_root_and_bloom, calculate_transaction_root, enabled, enabled_once,
    leaf_message, merkleize, node_message, Bloom,
};

fn digest(message: &[u8]) -> B256 {
    B256(*blake3::hash(message).as_bytes())
}

fn leaf(domain: &[u8], index: u64, bytes: &[u8]) -> B256 {
    let mut hasher = blake3::Hasher::new();
    hasher.update(b"n42-blake3-block-roots-v1");
    hasher.update(domain);
    hasher.update(&index.to_le_bytes());
    hasher.update(&(bytes.len() as u64).to_le_bytes());
    hasher.update(bytes);
    B256(*hasher.finalize().as_bytes())
}

fn pair(left: B256, right: B256) -> B256 {
    let mut hasher = blake3::Hasher::new();
    hasher.update(b"n42-blake3-block-roots-v1");
    hasher.update(b"node");
    hasher.update(&left.0);
    hasher.update(&right.0);
    B256(*hasher.finalize().as_bytes())
}

#[test]
fn only_the_value_one_enables_the_roots() {
    assert!(enabled(Some("1")));
    assert!(!enabled(Some("0")));
    assert!(!enabled(Some("")));
    assert!(!enabled(Some("11")));
    assert!(!enabled(Some("true")));
    assert!(!enabled(None));
}

#[test]
fn the_first_answer_stays() {
    let mut kept = None;
    assert!(enabled_once(&mut kept, Some("1")));
    assert!(enabled_once(&mut kept, Some("0")) && enabled_once(&mut kept, None));
    let mut kept = None;
    assert!(!enabled_once(&mut kept, Some(" 1")));
    assert!(!enabled_once(&mut kept, Some("1")));
    assert_eq!(kept, Some(false));
}

#[test]
fn messages_are_spelled_byte_by_byte() {
    let mut expected = b"n42-blake3-block-roots-v1tx".to_vec();
    expected.extend_from_slice(&[2, 1, 0, 0, 0, 0, 0, 0]);
    expected.extend_from_slice(&[3, 0, 0, 0, 0, 0, 0, 0]);
    expected.extend_from_slice(&[7, 8, 9]);
    assert_eq!(leaf_message(b"tx", 258, &[7, 8, 9]), expected);
    let mut expected = b"n42-blake3-block-roots-v1node".to_vec();
    expected.extend_from_slice(&[1; 32]);
    expected.extend_from_slice(&[2; 32]);
    assert_eq!(node_message(&B256([1; 32]), &B256([2; 32])), expected);
}

#[test]
fn leaves_of_other_places_or_payloads_have_other_messages() {
    let message = leaf_message(b"tx", 1, &[2, 3]);
    assert_ne!(message, leaf_message(b"tx", 2, &[2, 3]));
    assert_ne!(message, leaf_message(b"tx", 1, &[2]));
    assert_ne!(message, leaf_message(b"receipt", 1, &[2, 3]));
    assert_ne!(merkleize(b"x", vec![vec![1], vec![2]]), merkleize(b"x", vec![vec![2], vec![1]]));
}

#[test]
fn no_payloads_and_one_payload_are_leaves() {
    assert_eq!(merkleize(b"x", vec![]), leaf(b"x", 0, &[]));
    assert_eq!(merkleize(b"x", vec![vec![]]), leaf(b"x", 0, &[]));
    assert_eq!(merkleize(b"x", vec![vec![5, 6]]), leaf(b"x", 0, &[5, 6]));
    assert_eq!(merkleize(b"x", vec![vec![5]]), digest(&leaf_message(b"x", 0, &[5])));
}

#[test]
fn odd_levels_repeat_their_last() {
    let payloads: Vec<Vec<u8>> = (0..5u8).map(|n| vec![n; n as usize]).collect();
    let leaves: Vec<B256> =
        payloads.iter().enumerate().map(|(i, p)| leaf(b"d", i as u64, p)).collect();
    assert_eq!(merkleize(b"d", payloads[..2].to_vec()), pair(leaves[0], leaves[1]));
    let three = pair(pair(leaves[0], leaves[1]), pair(leaves[2], leaves[2]));
    assert_eq!(merkleize(b"d", payloads[..3].to_vec()), three);
    let four = pair(pair(leaves[0], leaves[1]), pair(leaves[2], leaves[3]));
    assert_eq!(merkleize(b"d", payloads[..4].to_vec()), four);
    let last = pair(leaves[4], leaves[4]);
    let five = pair(four, pair(last, last));
    assert_eq!(merkleize(b"d", payloads), five);
}

#[test]
fn transactions_and_receipts_have_their_own_domains() {
    let items = vec![vec![1, 2], vec![3]];
    let tx = calculate_transaction_root(items.clone());
    assert_eq!(tx, merkleize(b"tx", items.clone()));
    let (receipt, _) = calculate_receipt_root_and_bloom(items.clone(), &vec![]);
    assert_eq!(receipt, merkleize(b"receipt", items));
    assert_ne!(tx, receipt);
}

#[test]
fn filters_are_joined_bit_by_bit() {
    let mut first = Bloom([0; 256]);
    first.0[0] = 0b0101;
    first.0[255] = 0x80;
    let mut second = Bloom([0; 256]);
    second.0[0] = 0b0011;
    second.0[17] = 0xFF;
    let (root, bloom) =
        calculate_receipt_root_and_bloom(vec![vec![1], vec![2]], &vec![first, second]);
    let mut expected = [0u8; 256];
    expected[0] = 0b0111;
    expected[17] = 0xFF;
    expected[255] = 0x80;
    assert_eq!(bloom, Bloom(expected));
    assert_eq!(root, pair(leaf(b"receipt", 0, &[1]), leaf(b"receipt", 1, &[2])));
    let (root, bloom) = calculate_receipt_root_and_bloom(vec![], &vec![]);
    assert_eq!(bloom, Bloom([0; 256]));
    assert_eq!(root, leaf(b"receipt", 0, &[]));
}
