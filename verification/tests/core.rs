use scanner_core::codec::Return;
use scanner_core::lifetime::{stage, LifetimeStage};
use scanner_core::output::{
    cmp_bytes, ids_distinct, scan_for_outputs, sort_by_id, sort_outputs, Balance, Output,
    OutputKind,
};
use std::cmp::Ordering;

fn output(id: &[u8], kind: OutputKind, key: &[u8], amount: u64) -> Output {
    Output {
        id: id.to_vec(),
        kind,
        key: key.to_vec(),
        address: Some(vec![9, 9]),
        balance: Balance { coin: 0, amount },
        data: vec![],
    }
}

#[test]
fn stage_before_activation_is_none() {
    assert_eq!(stage(5, None, 4, 1), None);
    assert_eq!(stage(5, Some(100), 4, 1), None);
}

#[test]
fn stage_without_successor_is_active() {
    assert_eq!(stage(5, None, 5, 1), Some(LifetimeStage::Active));
    assert_eq!(stage(5, None, 1000, 7), Some(LifetimeStage::Active));
}

#[test]
fn stage_rotation_boundaries() {
    // Successor activates at 110, with one block per ten minutes.
    assert_eq!(stage(0, Some(110), 109, 1), Some(LifetimeStage::Active));
    assert_eq!(stage(0, Some(110), 110, 1), Some(LifetimeStage::UsedToForward));
    assert_eq!(stage(0, Some(110), 115, 1), Some(LifetimeStage::UsedToForward));
    assert_eq!(stage(0, Some(110), 116, 1), Some(LifetimeStage::Forwarding));
    assert_eq!(stage(0, Some(110), 121, 1), Some(LifetimeStage::Forwarding));
    assert_eq!(stage(0, Some(110), 122, 1), Some(LifetimeStage::Finishing));
    assert_eq!(stage(0, Some(110), 100_000, 1), Some(LifetimeStage::Finishing));
}

#[test]
fn stage_scales_with_ten_minutes() {
    // Ten-minute unit of 10 blocks: forwarding starts 60 blocks after the
    // successor's activation, finishing 120 blocks after.
    assert_eq!(stage(0, Some(200), 259, 10), Some(LifetimeStage::UsedToForward));
    assert_eq!(stage(0, Some(200), 260, 10), Some(LifetimeStage::Forwarding));
    assert_eq!(stage(0, Some(200), 320, 10), Some(LifetimeStage::Finishing));
}

#[test]
fn cmp_bytes_orders_lexicographically() {
    assert_eq!(cmp_bytes(&vec![1, 2], &vec![1, 3]), Ordering::Less);
    assert_eq!(cmp_bytes(&vec![2], &vec![1, 9]), Ordering::Greater);
    assert_eq!(cmp_bytes(&vec![1, 2], &vec![1, 2, 0]), Ordering::Less);
    assert_eq!(cmp_bytes(&vec![], &vec![0]), Ordering::Less);
    assert_eq!(cmp_bytes(&vec![5, 6], &vec![5, 6]), Ordering::Equal);
}

#[test]
fn sort_outputs_orders_by_id() {
    let a = output(&[1, 2], OutputKind::External, &[7], 10);
    let b = output(&[1, 3], OutputKind::External, &[7], 10);
    assert_eq!(sort_outputs(&a, &b), Ordering::Less);
    assert_eq!(sort_outputs(&b, &a), Ordering::Greater);
}

#[test]
fn sort_by_id_sorts() {
    let sorted = sort_by_id(vec![
        output(&[3], OutputKind::External, &[7], 1),
        output(&[1], OutputKind::External, &[7], 2),
        output(&[2, 0], OutputKind::External, &[7], 3),
        output(&[2], OutputKind::External, &[7], 4),
    ]);
    let ids: Vec<Vec<u8>> = sorted.iter().map(|o| o.id.clone()).collect();
    assert_eq!(ids, vec![vec![1], vec![2], vec![2, 0], vec![3]]);
}

#[test]
fn scan_for_outputs_filters_and_sorts() {
    let found = scan_for_outputs(
        vec![
            output(&[3], OutputKind::External, &[7], 1),
            output(&[1], OutputKind::External, &[8], 2),
            output(&[2], OutputKind::External, &[7], 3),
        ],
        &vec![7],
    );
    let ids: Vec<Vec<u8>> = found.iter().map(|o| o.id.clone()).collect();
    assert_eq!(ids, vec![vec![2], vec![3]]);
}

#[test]
fn return_round_trip() {
    let ret = Return {
        address: vec![1, 2, 3],
        output: Output {
            id: vec![9, 8],
            kind: OutputKind::Forwarded,
            key: vec![4, 4, 4],
            address: Some(vec![1, 2, 3]),
            balance: Balance { coin: 2, amount: 500 },
            data: vec![0xde, 0xad],
        },
    };
    let mut buffer = Vec::new();
    ret.write(&mut buffer);
    let (read_back, consumed) = Return::read(&buffer).expect("round trip parses");
    assert_eq!(consumed, buffer.len());
    assert_eq!(read_back.address, ret.address);
    assert_eq!(read_back.output, ret.output);
}

#[test]
fn return_round_trip_no_address() {
    let ret = Return {
        address: vec![],
        output: Output {
            id: vec![],
            kind: OutputKind::External,
            key: vec![],
            address: None,
            balance: Balance { coin: 0, amount: 0 },
            data: vec![],
        },
    };
    let mut buffer = Vec::new();
    ret.write(&mut buffer);
    let (read_back, consumed) = Return::read(&buffer).expect("round trip parses");
    assert_eq!(consumed, buffer.len());
    assert_eq!(read_back.output, ret.output);
}

#[test]
fn return_read_ignores_trailing_bytes() {
    let ret = Return {
        address: vec![5],
        output: output(&[1], OutputKind::Change, &[2], 7),
    };
    let mut buffer = Vec::new();
    ret.write(&mut buffer);
    let encoded_len = buffer.len();
    buffer.extend_from_slice(&[0xff, 0xee]);
    let (read_back, consumed) = Return::read(&buffer).expect("prefix parses");
    assert_eq!(consumed, encoded_len);
    assert_eq!(read_back.output, ret.output);
}

#[test]
fn return_read_rejects_truncation() {
    let ret = Return {
        address: vec![5],
        output: output(&[1], OutputKind::Change, &[2], 7),
    };
    let mut buffer = Vec::new();
    ret.write(&mut buffer);
    buffer.pop();
    assert!(Return::read(&buffer).is_err());
}

#[test]
fn return_read_rejects_bad_kind_tag() {
    let ret = Return {
        address: vec![],
        output: Output {
            id: vec![1],
            kind: OutputKind::External,
            key: vec![],
            address: None,
            balance: Balance { coin: 0, amount: 0 },
            data: vec![],
        },
    };
    let mut buffer = Vec::new();
    ret.write(&mut buffer);
    // The kind byte follows the address (8-byte length) and the ID
    // (8-byte length plus one byte).
    let kind_at = 8 + 8 + 1;
    assert_eq!(buffer[kind_at], 0);
    buffer[kind_at] = 200;
    assert!(Return::read(&buffer).is_err());
}

#[test]
fn ids_distinct_detects_duplicates() {
    let a = output(&[1], OutputKind::External, &[7], 1);
    let b = output(&[2], OutputKind::External, &[7], 1);
    let dup = output(&[1], OutputKind::Branch, &[8], 2);
    assert!(ids_distinct(&vec![a.clone(), b.clone()]));
    assert!(!ids_distinct(&vec![a, b, dup]));
}
