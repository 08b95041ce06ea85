use scanner_core::eventuality::{match_eventualities, Eventuality};
use scanner_core::index::{block_id_matches, reorg_message, u64_to_decimal};
use scanner_core::lookup::completion_search_spans;
use scanner_core::output::{Balance, Output, OutputKind};
use scanner_core::runtime::{deposit, IdentityValidatorIdOf, DAYS, HOURS, MINUTES};
use scanner_core::scanner::{Burn, Scanner};

fn deposit_output(id: u8, key: &[u8], amount: u64) -> Output {
    Output {
        id: vec![id],
        kind: OutputKind::External,
        key: key.to_vec(),
        address: Some(vec![1]),
        balance: Balance { coin: 0, amount },
        data: vec![],
    }
}

// A deposit of 1000 units (dust 100) in one block becomes a persisted,
// notable record, and acknowledging the block hands exactly that output to
// the scheduler.
#[test]
fn deposit_flows_to_scheduler_on_acknowledgement() {
    let mut scanner = Scanner::new(0, 10, 10, 1);
    scanner.activate_key(vec![7], 0);

    // Blocks 0..=9 scanned; only block 5 carries a deposit.
    for n in 0..10u64 {
        let outputs = if n == 5 { vec![deposit_output(50, &[7], 1000)] } else { Vec::new() };
        scanner.scan_step(outputs, 100, 10);
    }
    assert_eq!(scanner.next_to_scan, 10);
    assert!(scanner.is_block_notable(5));
    assert!(!scanner.is_block_notable(4));

    // The eventuality task checks blocks 0..=4 (none notable, nothing
    // acknowledged), then halts at 5 until it is acknowledged.
    for _ in 0..5 {
        let resolved = scanner.eventuality_match(&Vec::new());
        assert!(resolved.is_empty());
        assert!(scanner.eventuality_advance().is_none());
    }
    assert_eq!(scanner.next_to_check, 5);

    scanner.acknowledge_block(5, None);
    scanner.queue_burns(vec![Burn { coin: 0, amount: 40, data: vec![9] }]);

    scanner.eventuality_match(&Vec::new());
    let (update, burns) = scanner.eventuality_advance().expect("acknowledged block hands over");
    assert_eq!(update.outputs.len(), 1);
    assert_eq!(update.outputs[0].id, vec![50]);
    assert!(update.forwards.is_empty());
    assert!(update.returns.is_empty());
    assert_eq!(burns.len(), 1);
    assert_eq!(burns[0].amount, 40);
    assert_eq!(scanner.next_to_check, 6);
    assert!(scanner.pending_burns.is_empty());
}

// A dust deposit leaves the block non-notable and nothing is handed over.
#[test]
fn dust_deposit_is_dropped() {
    let mut scanner = Scanner::new(0, 10, 10, 1);
    scanner.activate_key(vec![7], 0);
    scanner.scan_step(vec![deposit_output(50, &[7], 50)], 100, 10);
    assert!(!scanner.is_block_notable(0));
    scanner.eventuality_match(&Vec::new());
    assert!(scanner.eventuality_advance().is_none());
}

#[test]
fn scan_window_is_bounded() {
    let mut scanner = Scanner::new(0, 3, 5, 1);
    scanner.activate_key(vec![7], 0);
    for _ in 0..3 {
        scanner.scan_step(Vec::new(), 100, 10);
    }
    // The window is exhausted: blocks past start + window need an
    // acknowledgement first.
    assert_eq!(scanner.next_to_scan, 3);
    assert_eq!(scanner.next_to_scan as i128, scanner.start_block as i128 + 3);
}

#[test]
fn acknowledgement_queues_key_one_window_ahead() {
    let mut scanner = Scanner::new(0, 10, 10, 1);
    scanner.activate_key(vec![7], 0);
    scanner.scan_step(vec![deposit_output(1, &[7], 1000)], 100, 10);
    scanner.acknowledge_block(0, Some(vec![8]));
    assert_eq!(scanner.highest_acknowledged, Some(0));
    assert_eq!(scanner.queued_keys.len(), 1);
    assert_eq!(scanner.queued_keys[0], (10, vec![8]));

    assert!(scanner.due_queued_key(9).is_none());
    let (activation, key) = scanner.due_queued_key(10).expect("due at its height");
    assert_eq!((activation, key.clone()), (10, vec![8]));
    scanner.activate_key(key, activation);
    assert!(scanner.next_key.is_some());
}

// A resolution in a checked block makes that block notable, halting the
// eventuality task until the block is acknowledged.
#[test]
fn resolution_makes_block_notable() {
    let mut scanner = Scanner::new(0, 10, 10, 1);
    scanner.activate_key(vec![7], 0);
    scanner.merge_eventualities(vec![Eventuality { key: vec![7], lookup: vec![0xaa] }]);
    scanner.scan_step(Vec::new(), 100, 10);

    let resolved = scanner.eventuality_match(&vec![vec![0xaa]]);
    assert_eq!(resolved.len(), 1);
    assert!(scanner.is_block_notable(0));
    assert!(scanner.pending_eventualities.is_empty());
}

#[test]
fn match_eventualities_splits_pending() {
    let (remaining, resolved) = match_eventualities(
        vec![
            Eventuality { key: vec![7], lookup: vec![1] },
            Eventuality { key: vec![7], lookup: vec![2] },
            Eventuality { key: vec![8], lookup: vec![3] },
        ],
        &vec![vec![2], vec![9]],
    );
    assert_eq!(remaining.len(), 2);
    assert_eq!(resolved.len(), 1);
    assert_eq!(resolved[0].lookup, vec![2]);
}

#[test]
fn retire_key_promotes_successor() {
    let mut scanner = Scanner::new(0, 10, 10, 1);
    scanner.activate_key(vec![7], 0);
    scanner.activate_key(vec![8], 5);
    scanner.retire_key(&vec![7]);
    assert_eq!(scanner.current_key.as_ref().map(|k| k.key.clone()), Some(vec![8]));
    assert!(scanner.next_key.is_none());
}

#[test]
fn block_id_check_and_reorg_message() {
    assert!(block_id_matches(&vec![0xab, 0x01], &vec![0xab, 0x01]));
    assert!(!block_id_matches(&vec![0xab, 0x01], &vec![0xff, 0x02]));
    let message = reorg_message(&vec![0xab, 0x01], &vec![0xff, 0x02], 5);
    assert_eq!(message, "finalized chain reorganized from ab01 to ff02 at 5");
}

#[test]
fn decimal_rendering() {
    assert_eq!(u64_to_decimal(0), "0");
    assert_eq!(u64_to_decimal(7), "7");
    assert_eq!(u64_to_decimal(12345), "12345");
    assert_eq!(u64_to_decimal(1000), "1000");
}

#[test]
fn completion_search_spans_cover_recent_epochs() {
    assert_eq!(
        completion_search_spans(5),
        vec![(64, 95), (96, 127), (128, 159), (160, 191)],
    );
    assert_eq!(completion_search_spans(1), vec![(0, 31), (32, 63)]);
    assert_eq!(completion_search_spans(0), vec![(0, 31)]);
}

#[test]
fn runtime_constants_and_deposit() {
    assert_eq!(MINUTES, 10);
    assert_eq!(HOURS, 600);
    assert_eq!(DAYS, 14_400);
    assert_eq!(deposit(1, 0), 100_000_000_000);
    assert_eq!(deposit(0, 1), 5_000_000);
    assert_eq!(deposit(2, 10), 200_000_000_000 + 50_000_000);
}

#[test]
fn validator_id_is_identity() {
    assert_eq!(IdentityValidatorIdOf::convert(vec![1, 2, 3]), Some(vec![1, 2, 3]));
}

#[test]
fn ids_fresh_rejects_recurring_ids() {
    let mut scanner = Scanner::new(0, 10, 10, 1);
    scanner.activate_key(vec![7], 0);
    scanner.scan_step(vec![deposit_output(50, &[7], 1000)], 100, 10);
    let recurring = deposit_output(50, &[7], 1000);
    assert!(!scanner.ids_fresh(&vec![recurring]));
    let fresh = deposit_output(51, &[7], 1000);
    assert!(scanner.ids_fresh(&vec![fresh]));
}
