//! Planning the search for a completed outbound transaction.
//!
//! On chains that finalize in fixed-length epochs, a completion is looked up
//! by filtering each candidate epoch's log range for the transaction's
//! nonce. The ranges to query are a pure function of the epoch the
//! completion is expected in: that epoch and a fixed number of epochs before
//! it, each spanning `EPOCH_LENGTH` blocks.

use vstd::prelude::*;

verus! {

/// How many blocks one finalized epoch spans.
pub const EPOCH_LENGTH: u64 = 32;

/// How many epochs before the expected one are re-checked.
pub const LOOKBACK_EPOCHS: u64 = 3;

/// The first epoch to search when a completion is expected in `epoch`.
pub open spec fn first_search_epoch(epoch: int) -> int {
    if epoch >= LOOKBACK_EPOCHS {
        epoch - LOOKBACK_EPOCHS
    } else {
        0
    }
}

/// The block ranges to query for a completion expected in `epoch`: the
/// epochs from `first_search_epoch` through `epoch`, each as an inclusive
/// span of `EPOCH_LENGTH` blocks.
pub fn completion_search_spans(epoch: u64) -> (spans: Vec<(u64, u64)>)
    requires
        EPOCH_LENGTH * (epoch + 1) <= u64::MAX,
    ensures
        spans@.len() == epoch - first_search_epoch(epoch as int) + 1,
        forall|i: int|
            0 <= i < spans@.len() ==> #[trigger] spans@[i] == (
                ((first_search_epoch(epoch as int) + i) * EPOCH_LENGTH) as u64,
                ((first_search_epoch(epoch as int) + i) * EPOCH_LENGTH + EPOCH_LENGTH - 1) as u64,
            ),
{
    let first = if epoch >= LOOKBACK_EPOCHS {
        epoch - LOOKBACK_EPOCHS
    } else {
        0
    };
    let mut spans: Vec<(u64, u64)> = Vec::new();
    let mut b = first;
    while b <= epoch
        invariant
            first == first_search_epoch(epoch as int),
            first <= b <= epoch + 1,
            EPOCH_LENGTH * (epoch + 1) <= u64::MAX,
            spans@.len() == b - first,
            forall|i: int|
                0 <= i < spans@.len() ==> #[trigger] spans@[i] == (
                    (((first + i) * EPOCH_LENGTH) as u64),
                    (((first + i) * EPOCH_LENGTH + EPOCH_LENGTH - 1) as u64),
                ),
        decreases epoch + 1 - b,
    {
        proof {
            assert(EPOCH_LENGTH * b <= EPOCH_LENGTH * epoch) by (nonlinear_arith)
                requires
                    b <= epoch,
                    EPOCH_LENGTH > 0,
            ;
            assert(EPOCH_LENGTH * epoch + EPOCH_LENGTH == EPOCH_LENGTH * (epoch + 1))
                by (nonlinear_arith);
        }
        let start = b * EPOCH_LENGTH;
        let end = start + (EPOCH_LENGTH - 1);
        spans.push((start, end));
        b = b + 1;
    }
    spans
}

} // verus!
