//! Classification of a scanned block's outputs.
//!
//! For each block inside the allowed window, the scan step takes the outputs
//! discovered for one key and decides, per output, whether it is credited to
//! the key, forwarded to the key's successor, refunded to its sender, or
//! dropped. The decision depends only on the output's kind and amount, the
//! key's lifetime stage at that block, and the coin's dust bound.

use vstd::prelude::*;
use crate::codec::Return;
use crate::lifetime::LifetimeStage;
use crate::output::{
    distinct_ids, filter_by_key, key_pred, lemma_filter_distinct, lemma_filter_push,
    lemma_in_filter, sort_by_id, sorted_by_id, Output, OutputKind,
};

verus! {

/// What the scanner does with one discovered output.
#[derive(Clone, Copy, Debug, PartialEq, Eq, Structural)]
pub enum ScanDecision {
    /// Accumulate the output under its key.
    Credit,
    /// Forward the output to the key's successor.
    Forward,
    /// Refund the output to its presumed origin.
    Refund,
    /// Drop the output.
    Drop,
}

/// The decision for `o` at lifetime stage `stage`, with the coin's dust bound
/// `dust` and the current cost to aggregate an input `cost_to_aggregate`.
///
/// Outputs the scanner's own transactions made (branch, change, forwarded)
/// are always accumulated. An external output below the dust bound is dropped
/// outright: it is too small to refund profitably. Otherwise an `Active` key
/// credits it, a key in `UsedToForward` forwards it, and a later stage
/// rejects it, refunding when the origin is known and the amount covers both
/// the dust bound and the cost of aggregating the refund input.
pub open spec fn spec_classify(
    o: Output,
    stage: LifetimeStage,
    dust: u64,
    cost_to_aggregate: u64,
) -> ScanDecision {
    if o.kind != OutputKind::External {
        ScanDecision::Credit
    } else if o.balance.amount < dust {
        ScanDecision::Drop
    } else {
        match stage {
            LifetimeStage::Active => ScanDecision::Credit,
            LifetimeStage::UsedToForward => ScanDecision::Forward,
            LifetimeStage::Forwarding | LifetimeStage::Finishing => {
                if o.address is Some && o.balance.amount >= dust + cost_to_aggregate {
                    ScanDecision::Refund
                } else {
                    ScanDecision::Drop
                }
            },
        }
    }
}

/// Whether `o` is a creditable external output: the kind of output that, by
/// itself, makes its block notable.
pub open spec fn spec_creditable_external(
    o: Output,
    stage: LifetimeStage,
    dust: u64,
    cost_to_aggregate: u64,
) -> bool {
    o.kind == OutputKind::External && spec_classify(o, stage, dust, cost_to_aggregate)
        == ScanDecision::Credit
}

/// The predicate selecting outputs that classification decides `decision`
/// for.
pub open spec fn classify_pred(
    stage: LifetimeStage,
    dust: u64,
    cost_to_aggregate: u64,
    decision: ScanDecision,
) -> spec_fn(Output) -> bool {
    |o: Output| spec_classify(o, stage, dust, cost_to_aggregate) == decision
}

/// Decide what to do with one output.
pub fn classify_output(
    o: &Output,
    stage: LifetimeStage,
    dust: u64,
    cost_to_aggregate: u64,
) -> (d: ScanDecision)
    ensures
        d == spec_classify(*o, stage, dust, cost_to_aggregate),
{
    if !matches!(o.kind, OutputKind::External) {
        return ScanDecision::Credit;
    }
    if o.balance.amount < dust {
        return ScanDecision::Drop;
    }
    match stage {
        LifetimeStage::Active => ScanDecision::Credit,
        LifetimeStage::UsedToForward => ScanDecision::Forward,
        LifetimeStage::Forwarding | LifetimeStage::Finishing => {
            if o.address.is_some() && o.balance.amount - dust >= cost_to_aggregate {
                ScanDecision::Refund
            } else {
                ScanDecision::Drop
            }
        },
    }
}

/// The outputs of one scanned block for one key, after classification.
pub struct ScannedBlock {
    /// The outputs credited to the key.
    pub outputs: Vec<Output>,
    /// The outputs to forward to the key's successor.
    pub forwards: Vec<Output>,
    /// The outputs to refund to their presumed origins.
    pub returns: Vec<Return>,
    /// Whether this block must be acknowledged before the scanner advances
    /// past it: it holds at least one creditable external output.
    pub notable: bool,
}

fn copy_bytes(v: &Vec<u8>) -> (r: Vec<u8>)
    ensures
        r@ == v@,
{
    let mut r: Vec<u8> = Vec::new();
    let mut i: usize = 0;
    while i < v.len()
        invariant
            0 <= i <= v@.len(),
            r@ == v@.subrange(0, i as int),
        decreases v@.len() - i,
    {
        r.push(v[i]);
        proof {
            assert(r@ =~= v@.subrange(0, i + 1));
        }
        i = i + 1;
    }
    proof {
        assert(v@.subrange(0, v@.len() as int) =~= v@);
    }
    r
}

/// Classify every output scanned in one block for one key.
///
/// Each output lands in exactly one of the credited outputs, the forwards,
/// and the returns, or is dropped, according to `spec_classify`; order is
/// kept. The block is notable exactly when some output is a creditable
/// external output.
pub fn scan_block(
    outputs: Vec<Output>,
    stage: LifetimeStage,
    dust: u64,
    cost_to_aggregate: u64,
) -> (scanned: ScannedBlock)
    ensures
        scanned.outputs@ == outputs@.filter(
            classify_pred(stage, dust, cost_to_aggregate, ScanDecision::Credit),
        ),
        scanned.forwards@ == outputs@.filter(
            classify_pred(stage, dust, cost_to_aggregate, ScanDecision::Forward),
        ),
        scanned.returns@.map_values(|r: Return| r.output) == outputs@.filter(
            classify_pred(stage, dust, cost_to_aggregate, ScanDecision::Refund),
        ),
        forall|k: int| 0 <= k < scanned.returns@.len() ==> (#[trigger] scanned.returns@[k]).output@.address
            == Some(scanned.returns@[k].address@),
        scanned.notable <==> exists|l: int|
            0 <= l < outputs@.len() && spec_creditable_external(
                #[trigger] outputs@[l],
                stage,
                dust,
                cost_to_aggregate,
            ),
{
    let ghost credit_pred = classify_pred(stage, dust, cost_to_aggregate, ScanDecision::Credit);
    let ghost forward_pred = classify_pred(stage, dust, cost_to_aggregate, ScanDecision::Forward);
    let ghost refund_pred = classify_pred(stage, dust, cost_to_aggregate, ScanDecision::Refund);
    let ghost orig = outputs@;
    let mut rest = outputs;
    let mut credited: Vec<Output> = Vec::new();
    let mut forwards: Vec<Output> = Vec::new();
    let mut refunds: Vec<Return> = Vec::new();
    let mut notable = false;
    let ghost i: int = 0;
    proof {
        reveal(Seq::filter);
        assert(rest@ =~= orig.skip(0));
        assert(orig.subrange(0, 0) =~= Seq::<Output>::empty());
        assert(orig.subrange(0, 0).filter(credit_pred) =~= Seq::<Output>::empty());
        assert(orig.subrange(0, 0).filter(forward_pred) =~= Seq::<Output>::empty());
        assert(orig.subrange(0, 0).filter(refund_pred) =~= Seq::<Output>::empty());
        assert(refunds@.map_values(|r: Return| r.output) =~= Seq::<Output>::empty());
    }
    while rest.len() > 0
        invariant
            0 <= i <= orig.len(),
            rest@ == orig.skip(i),
            credited@ == orig.subrange(0, i).filter(credit_pred),
            forwards@ == orig.subrange(0, i).filter(forward_pred),
            refunds@.map_values(|r: Return| r.output) == orig.subrange(0, i).filter(refund_pred),
            forall|k: int| 0 <= k < refunds@.len() ==> (#[trigger] refunds@[k]).output@.address
                == Some(refunds@[k].address@),
            notable <==> exists|l: int|
                0 <= l < i && spec_creditable_external(
                    #[trigger] orig[l],
                    stage,
                    dust,
                    cost_to_aggregate,
                ),
            credit_pred == classify_pred(stage, dust, cost_to_aggregate, ScanDecision::Credit),
            forward_pred == classify_pred(stage, dust, cost_to_aggregate, ScanDecision::Forward),
            refund_pred == classify_pred(stage, dust, cost_to_aggregate, ScanDecision::Refund),
        decreases rest@.len(),
    {
        let ghost prefix = orig.subrange(0, i);
        let next = rest.remove(0);
        proof {
            assert(orig.skip(i).remove(0) =~= orig.skip(i + 1));
            assert(next == orig[i]);
            assert(orig.subrange(0, i + 1) =~= prefix.push(next));
            lemma_filter_push(prefix, next, credit_pred);
            lemma_filter_push(prefix, next, forward_pred);
            lemma_filter_push(prefix, next, refund_pred);
        }
        let is_external = matches!(next.kind, OutputKind::External);
        let decision = classify_output(&next, stage, dust, cost_to_aggregate);
        proof {
            assert(credit_pred(next) == (spec_classify(next, stage, dust, cost_to_aggregate)
                == ScanDecision::Credit));
            assert(forward_pred(next) == (spec_classify(next, stage, dust, cost_to_aggregate)
                == ScanDecision::Forward));
            assert(refund_pred(next) == (spec_classify(next, stage, dust, cost_to_aggregate)
                == ScanDecision::Refund));
        }
        let ghost returns_before = refunds@;
        match decision {
            ScanDecision::Credit => {
                if is_external {
                    notable = true;
                }
                credited.push(next);
            },
            ScanDecision::Forward => {
                forwards.push(next);
            },
            ScanDecision::Refund => {
                let address = match &next.address {
                    Some(a) => copy_bytes(a),
                    None => {
                        proof {
                            assert(false);
                        }
                        Vec::new()
                    },
                };
                refunds.push(Return { address, output: next });
            },
            ScanDecision::Drop => {},
        }
        proof {
            if spec_classify(next, stage, dust, cost_to_aggregate) == ScanDecision::Refund {
                assert(refunds@.map_values(|r: Return| r.output) =~= returns_before.map_values(
                    |r: Return| r.output,
                ).push(next));
            }
        }
        proof {
            i = i + 1;
        }
    }
    proof {
        assert(orig.subrange(0, orig.len() as int) =~= orig);
    }
    ScannedBlock { outputs: credited, forwards, returns: refunds, notable }
}

/// Scan one block's discovered outputs for one key and classify the result.
///
/// Of the outputs payable to `key`, the credited ones are returned in
/// strictly ascending ID order; the forwards and returns keep their
/// discovered order. The block is notable for this key exactly when some
/// output payable to `key` is a creditable external output.
pub fn scan_key_in_block(
    block_outputs: Vec<Output>,
    key: &Vec<u8>,
    stage: LifetimeStage,
    dust: u64,
    cost_to_aggregate: u64,
) -> (sb: ScannedBlock)
    requires
        distinct_ids(block_outputs@),
    ensures
        sorted_by_id(sb.outputs@),
        sb.outputs@.to_multiset() == block_outputs@.filter(key_pred(key@)).filter(
            classify_pred(stage, dust, cost_to_aggregate, ScanDecision::Credit),
        ).to_multiset(),
        sb.forwards@ == block_outputs@.filter(key_pred(key@)).filter(
            classify_pred(stage, dust, cost_to_aggregate, ScanDecision::Forward),
        ),
        sb.returns@.map_values(|r: Return| r.output) == block_outputs@.filter(
            key_pred(key@),
        ).filter(classify_pred(stage, dust, cost_to_aggregate, ScanDecision::Refund)),
        forall|k: int| 0 <= k < sb.returns@.len() ==> (#[trigger] sb.returns@[k]).output@.address
            == Some(sb.returns@[k].address@),
        sb.notable <==> exists|l: int|
            0 <= l < block_outputs@.len() && (#[trigger] block_outputs@[l]).key@ == key@
                && spec_creditable_external(block_outputs@[l], stage, dust, cost_to_aggregate),
{
    let ghost orig = block_outputs@;
    let ghost kp = key_pred(key@);
    let ghost credit = classify_pred(stage, dust, cost_to_aggregate, ScanDecision::Credit);
    proof {
        lemma_filter_distinct(orig, kp);
    }
    let filtered = filter_by_key(block_outputs, key);
    let ghost filtered_view = filtered@;
    let scanned = scan_block(filtered, stage, dust, cost_to_aggregate);
    proof {
        lemma_filter_distinct(filtered_view, credit);
    }
    let sorted = sort_by_id(scanned.outputs);

    proof {
        // The notable flag, stated over the filtered outputs by `scan_block`,
        // is restated over the whole block.
        broadcast use vstd::seq_lib::group_filter_ensures;

        if scanned.notable {
            let l = choose|l: int|
                0 <= l < filtered_view.len() && spec_creditable_external(
                    #[trigger] filtered_view[l],
                    stage,
                    dust,
                    cost_to_aggregate,
                );
            assert(filtered_view.contains(filtered_view[l]));
            lemma_in_filter(orig, kp, filtered_view[l]);
            let m = choose|m: int| 0 <= m < orig.len() && orig[m] == filtered_view[l];
            assert(orig[m].key@ == key@ && spec_creditable_external(
                orig[m],
                stage,
                dust,
                cost_to_aggregate,
            ));
        } else {
            assert forall|l: int|
                0 <= l < orig.len() && (#[trigger] orig[l]).key@ == key@ implies
                !spec_creditable_external(orig[l], stage, dust, cost_to_aggregate) by {
                if spec_creditable_external(orig[l], stage, dust, cost_to_aggregate) {
                    assert(kp(orig[l]));
                    assert(filtered_view.contains(orig[l]));
                    let t = choose|t: int|
                        0 <= t < filtered_view.len() && filtered_view[t] == orig[l];
                    assert(spec_creditable_external(
                        filtered_view[t],
                        stage,
                        dust,
                        cost_to_aggregate,
                    ));
                }
            }
        }
    }
    ScannedBlock {
        outputs: sorted,
        forwards: scanned.forwards,
        returns: scanned.returns,
        notable: scanned.notable,
    }
}

} // verus!
