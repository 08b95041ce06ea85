use scanner_core::lifetime::LifetimeStage;
use scanner_core::output::{Balance, Output, OutputKind};
use scanner_core::report::{build_batches, ReportState};
use scanner_core::scan::{classify_output, scan_block, scan_key_in_block, ScanDecision};

fn external(id: u8, key: &[u8], amount: u64, address: Option<Vec<u8>>) -> Output {
    Output {
        id: vec![id],
        kind: OutputKind::External,
        key: key.to_vec(),
        address,
        balance: Balance { coin: 0, amount },
        data: vec![id, id],
    }
}

#[test]
fn classify_credits_active_deposit() {
    let o = external(1, &[7], 1000, Some(vec![3]));
    assert_eq!(classify_output(&o, LifetimeStage::Active, 100, 10), ScanDecision::Credit);
}

#[test]
fn classify_drops_dust() {
    let o = external(1, &[7], 50, Some(vec![3]));
    assert_eq!(classify_output(&o, LifetimeStage::Active, 100, 10), ScanDecision::Drop);
}

#[test]
fn classify_forwards_during_rotation() {
    let o = external(1, &[7], 1000, Some(vec![3]));
    assert_eq!(classify_output(&o, LifetimeStage::UsedToForward, 100, 10), ScanDecision::Forward);
}

#[test]
fn classify_refunds_late_deposit_when_refundable() {
    let o = external(1, &[7], 1000, Some(vec![3]));
    assert_eq!(classify_output(&o, LifetimeStage::Finishing, 100, 10), ScanDecision::Refund);
    assert_eq!(classify_output(&o, LifetimeStage::Forwarding, 100, 10), ScanDecision::Refund);
}

#[test]
fn classify_drops_late_deposit_without_address() {
    let o = external(1, &[7], 1000, None);
    assert_eq!(classify_output(&o, LifetimeStage::Finishing, 100, 10), ScanDecision::Drop);
}

#[test]
fn classify_drops_late_deposit_below_refund_floor() {
    // Amount covers dust but not dust plus the aggregation cost.
    let o = external(1, &[7], 105, Some(vec![3]));
    assert_eq!(classify_output(&o, LifetimeStage::Finishing, 100, 10), ScanDecision::Drop);
}

#[test]
fn classify_credits_internal_outputs() {
    for kind in [OutputKind::Branch, OutputKind::Change, OutputKind::Forwarded] {
        let mut o = external(1, &[7], 1, Some(vec![3]));
        o.kind = kind;
        assert_eq!(classify_output(&o, LifetimeStage::Finishing, 100, 10), ScanDecision::Credit);
    }
}

#[test]
fn scan_block_splits_and_marks_notable() {
    let scanned = scan_block(
        vec![
            external(1, &[7], 1000, Some(vec![3])),
            external(2, &[7], 50, Some(vec![3])),
        ],
        LifetimeStage::Active,
        100,
        10,
    );
    assert_eq!(scanned.outputs.len(), 1);
    assert_eq!(scanned.outputs[0].id, vec![1]);
    assert!(scanned.forwards.is_empty());
    assert!(scanned.returns.is_empty());
    assert!(scanned.notable);
}

#[test]
fn scan_block_dust_only_is_not_notable() {
    // A deposit below dust is dropped outright and the block needs no
    // acknowledgement.
    let scanned = scan_block(
        vec![external(1, &[7], 50, Some(vec![3]))],
        LifetimeStage::Active,
        100,
        10,
    );
    assert!(scanned.outputs.is_empty());
    assert!(!scanned.notable);
}

#[test]
fn scan_key_in_block_filters_sorts_and_classifies() {
    let scanned = scan_key_in_block(
        vec![
            external(3, &[7], 1000, Some(vec![3])),
            external(2, &[8], 1000, Some(vec![3])),
            external(1, &[7], 1000, Some(vec![3])),
        ],
        &vec![7],
        LifetimeStage::Active,
        100,
        10,
    );
    let ids: Vec<Vec<u8>> = scanned.outputs.iter().map(|o| o.id.clone()).collect();
    assert_eq!(ids, vec![vec![1], vec![3]]);
    assert!(scanned.notable);
}

#[test]
fn scan_key_in_block_builds_returns() {
    let scanned = scan_key_in_block(
        vec![external(1, &[7], 1000, Some(vec![42]))],
        &vec![7],
        LifetimeStage::Finishing,
        100,
        10,
    );
    assert!(scanned.outputs.is_empty());
    assert_eq!(scanned.returns.len(), 1);
    assert_eq!(scanned.returns[0].address, vec![42]);
    assert_eq!(scanned.returns[0].output.id, vec![1]);
    assert!(!scanned.notable);
}

#[test]
fn build_batches_chunks_with_contiguous_ids() {
    let outputs: Vec<Output> = (1..=5).map(|i| external(i, &[7], 1000, None)).collect();
    let batches = build_batches(3, 10, outputs, 4, 2);
    assert_eq!(batches.len(), 3);
    assert_eq!(batches[0].id, 4);
    assert_eq!(batches[1].id, 5);
    assert_eq!(batches[2].id, 6);
    assert_eq!(batches[0].instructions.len(), 2);
    assert_eq!(batches[1].instructions.len(), 2);
    assert_eq!(batches[2].instructions.len(), 1);
    for batch in &batches {
        assert_eq!(batch.network, 3);
        assert_eq!(batch.block, 10);
    }
    assert_eq!(batches[0].instructions[0].amount, 1000);
    assert_eq!(batches[2].instructions[0].data, vec![5, 5]);
}

#[test]
fn build_batches_empty_block_publishes_nothing() {
    let batches = build_batches(3, 10, Vec::new(), 0, 2);
    assert!(batches.is_empty());
}

#[test]
fn report_state_assigns_ids_from_zero() {
    let mut state = ReportState::new(3);
    let first = state.report_block(10, vec![external(1, &[7], 1000, None)], 25);
    assert_eq!(first.len(), 1);
    assert_eq!(first[0].id, 0);
    let second = state.report_block(
        11,
        vec![external(2, &[7], 1000, None), external(3, &[7], 1000, None)],
        1,
    );
    assert_eq!(second.len(), 2);
    assert_eq!(second[0].id, 1);
    assert_eq!(second[1].id, 2);
    assert_eq!(state.next_batch_id, 3);
}
