//! The scanner's state machine.
//!
//! The scanner advances two frontiers over the indexed chain: the scan head
//! (the next block to scan for outputs) and the eventuality head (the next
//! block to check for resolved eventualities and, at the acknowledged block,
//! to hand to the scheduler). Both are bounded by the last block the
//! consensus layer acknowledged plus a fixed look-ahead window, so the
//! consensus layer always retains a consistent, bounded view of what the
//! scanner may have seen.
//!
//! The surrounding tasks perform the fetches, publishes and persistence;
//! every decision — what to scan, what to hand over, when to halt — is made
//! here.

use vstd::prelude::*;
use vstd::multiset::Multiset;
use vstd::seq_lib::to_multiset_contains;
use crate::codec::Return;
use crate::eventuality::{match_eventualities, resolved_pred, unresolved_pred, Eventuality};
use crate::lifetime::{spec_stage, stage, LifetimeStage, RETIRING_PERIODS};
use crate::output::{
    bytes_eq, distinct_ids, key_pred, lemma_filter_all, lemma_filter_distinct, lemma_filter_push,
    lemma_id_order_strict_total, lemma_in_filter, sorted_by_id, Output,
};
use crate::scan::{
    classify_pred, scan_key_in_block, spec_creditable_external, ScanDecision,
};

verus! {

/// Split one block's outputs into those payable to `key_a` and those payable
/// to `key_b`, each in the given order; outputs payable to neither are
/// dropped. The two keys must differ.
fn partition_by_keys(outputs: Vec<Output>, key_a: &Vec<u8>, key_b: &Vec<u8>) -> (r: (
    Vec<Output>,
    Vec<Output>,
))
    requires
        key_a@ != key_b@,
    ensures
        r.0@ == outputs@.filter(key_pred(key_a@)),
        r.1@ == outputs@.filter(key_pred(key_b@)),
{
    let ghost pred_a = key_pred(key_a@);
    let ghost pred_b = key_pred(key_b@);
    let ghost orig = outputs@;
    let mut rest = outputs;
    let mut to_a: Vec<Output> = Vec::new();
    let mut to_b: Vec<Output> = Vec::new();
    let ghost i: int = 0;
    proof {
        reveal(Seq::filter);
        assert(rest@ =~= orig.skip(0));
        assert(orig.subrange(0, 0) =~= Seq::<Output>::empty());
        assert(orig.subrange(0, 0).filter(pred_a) =~= Seq::<Output>::empty());
        assert(orig.subrange(0, 0).filter(pred_b) =~= Seq::<Output>::empty());
    }
    while rest.len() > 0
        invariant
            0 <= i <= orig.len(),
            rest@ == orig.skip(i),
            to_a@ == orig.subrange(0, i).filter(pred_a),
            to_b@ == orig.subrange(0, i).filter(pred_b),
            pred_a == key_pred(key_a@),
            pred_b == key_pred(key_b@),
            key_a@ != key_b@,
        decreases rest@.len(),
    {
        let ghost prefix = orig.subrange(0, i);
        let next = rest.remove(0);
        proof {
            assert(orig.skip(i).remove(0) =~= orig.skip(i + 1));
            assert(next == orig[i]);
            assert(orig.subrange(0, i + 1) =~= prefix.push(next));
            lemma_filter_push(prefix, next, pred_a);
            lemma_filter_push(prefix, next, pred_b);
        }
        proof {
            assert(pred_a(next) == (next.key@ == key_a@));
            assert(pred_b(next) == (next.key@ == key_b@));
        }
        if bytes_eq(&next.key, key_a) {
            to_a.push(next);
        } else if bytes_eq(&next.key, key_b) {
            to_b.push(next);
        }
        proof {
            i = i + 1;
        }
    }
    proof {
        assert(orig.subrange(0, orig.len() as int) =~= orig);
    }
    (to_a, to_b)
}

/// A user's request to withdraw funds, queued for the scheduler to fulfill.
pub struct Burn {
    /// The coin to withdraw.
    pub coin: u64,
    /// The amount to withdraw.
    pub amount: u64,
    /// The encoded instruction naming where the funds go.
    pub data: Vec<u8>,
}

/// A multisig key known to the scanner.
pub struct KeyInfo {
    /// The encoded key.
    pub key: Vec<u8>,
    /// The block by which the key is fully spendable.
    pub activation_block: u64,
}

/// The Eventuality task's hand-off to the scheduler for one block.
pub struct SchedulerUpdate {
    /// The outputs accumulated, in strictly ascending ID order per key.
    pub outputs: Vec<Output>,
    /// The outputs to forward to the successor key.
    pub forwards: Vec<Output>,
    /// The outputs to refund.
    pub returns: Vec<Return>,
}

/// The persisted scan result for one block, awaiting acknowledgement.
pub struct BlockData {
    /// The block's number.
    pub number: u64,
    /// The outputs credited in this block, per-key sorted by ID.
    pub outputs: Vec<Output>,
    /// The outputs to forward.
    pub forwards: Vec<Output>,
    /// The outputs to refund.
    pub returns: Vec<Return>,
}

/// The scanner's state: frontiers, acknowledgement, keys, and what each task
/// has persisted for the others.
pub struct Scanner {
    /// The look-ahead window: how many blocks may be scanned past the last
    /// acknowledged block.
    pub window_length: u64,
    /// How many confirmations a block needs to count as finalized.
    pub confirmations: u64,
    /// The chain's approximate block count per ten minutes.
    pub ten_minutes: u64,
    /// The first block the scanner is responsible for.
    pub start_block: u64,
    /// The next block to scan.
    pub next_to_scan: u64,
    /// The next block the Eventuality task checks.
    pub next_to_check: u64,
    /// The highest block the consensus layer acknowledged, if any.
    pub highest_acknowledged: Option<u64>,
    /// The notable blocks seen so far: those the consensus layer must
    /// acknowledge before the scanner advances past them.
    pub notable: Vec<u64>,
    /// The elder active key, if any.
    pub current_key: Option<KeyInfo>,
    /// The successor key, activated while `current_key` retires.
    pub next_key: Option<KeyInfo>,
    /// Keys queued for activation: `(activation block, key)`.
    pub queued_keys: Vec<(u64, Vec<u8>)>,
    /// Burns awaiting fulfillment, each stamped with the block height that
    /// was acknowledged when it was queued.
    pub pending_burns: Vec<(u64, Burn)>,
    /// Eventualities not yet resolved by any checked block.
    pub pending_eventualities: Vec<Eventuality>,
    /// Scan results for blocks the Eventuality task has not consumed.
    pub persisted: Vec<BlockData>,
}

/// The outputs of `block` payable to `key` that classification at stage `st`
/// decides `decision` for, in their discovered order.
pub open spec fn key_decided(
    block: Seq<Output>,
    key: Seq<u8>,
    st: LifetimeStage,
    dust: u64,
    cost: u64,
    decision: ScanDecision,
) -> Seq<Output> {
    block.filter(key_pred(key)).filter(classify_pred(st, dust, cost, decision))
}

/// Every element of `part` is an element of `block` payable to `key`, given
/// that `part` holds (as a multiset) some `key_decided` selection of `block`.
proof fn lemma_part_elements(
    block: Seq<Output>,
    part: Seq<Output>,
    key: Seq<u8>,
    st: LifetimeStage,
    dust: u64,
    cost: u64,
    decision: ScanDecision,
)
    requires
        part.to_multiset() == key_decided(block, key, st, dust, cost, decision).to_multiset(),
    ensures
        forall|x: int|
            0 <= x < part.len() ==> block.contains(#[trigger] part[x]) && part[x].key@ == key,
{
    broadcast use vstd::seq_lib::group_filter_ensures;

    let kp = key_pred(key);
    let dp = classify_pred(st, dust, cost, decision);
    let selected = block.filter(kp).filter(dp);
    assert forall|x: int|
        0 <= x < part.len() implies block.contains(#[trigger] part[x]) && part[x].key@
        == key by {
        assert(part.contains(part[x]));
        to_multiset_contains(part, part[x]);
        to_multiset_contains(selected, part[x]);
        assert(selected.contains(part[x]));
        lemma_in_filter(block.filter(kp), dp, part[x]);
        lemma_in_filter(block, kp, part[x]);
        let l = choose|l: int|
            0 <= l < block.filter(kp).len() && block.filter(kp)[l] == part[x];
        assert(kp(block.filter(kp)[l]));
        assert(kp(part[x]) == (part[x].key@ == key));
    }
}

proof fn lemma_empty_to_multiset()
    ensures
        Seq::<Output>::empty().to_multiset() == Multiset::<Output>::empty(),
{
    broadcast use vstd::multiset::group_multiset_axioms;

    assert forall|o: Output| Seq::<Output>::empty().to_multiset().count(o) == 0 by {
        to_multiset_contains(Seq::<Output>::empty(), o);
    }
    assert(Seq::<Output>::empty().to_multiset() =~= Multiset::<Output>::empty());
}

/// Persisted coverage carries over to a state with the same records and
/// frontiers.
proof fn lemma_entries_cover(pre: Scanner, post: Scanner)
    requires
        pre.wf(),
        post.persisted@ == pre.persisted@,
        post.next_to_check == pre.next_to_check,
        post.next_to_scan == pre.next_to_scan,
    ensures
        forall|m: int|
            post.next_to_check <= m < post.next_to_scan ==> #[trigger] post.has_entry(m),
{
    assert forall|m: int|
        post.next_to_check <= m < post.next_to_scan implies #[trigger] post.has_entry(m) by {
        assert(pre.has_entry(m));
        let e = choose|e: int|
            0 <= e < pre.persisted@.len() && (#[trigger] pre.persisted@[e]).number == m;
        assert(post.persisted@[e].number == m);
    }
}

/// Strictly ID-sorted outputs have pairwise distinct IDs.
proof fn lemma_sorted_distinct(s: Seq<Output>)
    requires
        sorted_by_id(s),
    ensures
        distinct_ids(s),
{
    assert forall|i: int, j: int| 0 <= i < j < s.len() implies s[i].id@ != s[j].id@ by {
        lemma_id_order_strict_total(s[i].id@, s[j].id@, s[j].id@);
    }
}

impl Scanner {
    /// The first block past the allowed window: the acknowledged block (or
    /// the start block before any acknowledgement) plus the window length.
    pub open spec fn ack_bound(self) -> int {
        (match self.highest_acknowledged {
            None => self.start_block as int,
            Some(a) => a as int,
        }) + self.window_length
    }

    /// Whether block `n` is notable.
    pub open spec fn spec_notable(self, n: int) -> bool {
        exists|i: int| 0 <= i < self.notable@.len() && self.notable@[i] == n
    }

    /// No two outputs persisted for the Eventuality task share an ID, within
    /// or across blocks.
    pub open spec fn persisted_ids_distinct(self) -> bool {
        forall|a: int, x: int, b: int, y: int|
            0 <= a < self.persisted@.len() && 0 <= x < self.persisted@[a].outputs@.len() && 0 <= b
                < self.persisted@.len() && 0 <= y < self.persisted@[b].outputs@.len() && (a != b
                || x != y) ==> (#[trigger] self.persisted@[a].outputs@[x]).id@ != (
            #[trigger] self.persisted@[b].outputs@[y]).id@
    }

    /// The IDs of `outs` are fresh: no persisted output shares one.
    pub open spec fn fresh_ids(self, outs: Seq<Output>) -> bool {
        forall|a: int, x: int, y: int|
            0 <= a < self.persisted@.len() && 0 <= x < self.persisted@[a].outputs@.len() && 0 <= y
                < outs.len() ==> (#[trigger] self.persisted@[a].outputs@[x]).id@ != (
            #[trigger] outs[y]).id@
    }

    /// Whether some persisted record holds block `m`'s scan results.
    pub open spec fn has_entry(self, m: int) -> bool {
        exists|e: int| 0 <= e < self.persisted@.len() && (#[trigger] self.persisted@[e]).number == m
    }

    /// The index of block `m`'s persisted record.
    pub open spec fn entry_index(self, m: int) -> int {
        choose|e: int| 0 <= e < self.persisted@.len() && (#[trigger] self.persisted@[e]).number == m
    }

    /// The scanner's invariant.
    pub open spec fn wf(self) -> bool {
        &&& 1 <= self.window_length <= self.confirmations
        &&& self.ten_minutes >= 1
        &&& self.start_block <= self.next_to_check <= self.next_to_scan
        &&& self.next_to_scan <= self.ack_bound()
        &&& self.ack_bound() <= u64::MAX
        &&& (self.highest_acknowledged is Some ==> self.start_block
            <= self.highest_acknowledged.unwrap())
        &&& (forall|i: int|
            0 <= i < self.notable@.len() ==> self.start_block <= #[trigger] self.notable@[i]
                < self.next_to_scan)
        &&& (self.next_key is Some ==> self.current_key is Some)
        &&& (self.current_key is Some && self.next_key is Some
            ==> self.current_key.unwrap().key@ != self.next_key.unwrap().key@)
        &&& (self.current_key is Some ==> self.current_key.unwrap().activation_block
            + RETIRING_PERIODS * self.ten_minutes <= u64::MAX)
        &&& (self.next_key is Some ==> self.next_key.unwrap().activation_block + RETIRING_PERIODS
            * self.ten_minutes <= u64::MAX)
        &&& (forall|i: int|
            0 <= i < self.queued_keys@.len() ==> (#[trigger] self.queued_keys@[i]).0
                + RETIRING_PERIODS * self.ten_minutes <= u64::MAX)
        &&& (forall|e: int|
            0 <= e < self.persisted@.len() ==> self.next_to_check
                <= (#[trigger] self.persisted@[e]).number < self.next_to_scan)
        &&& (forall|e: int, f: int|
            0 <= e < f < self.persisted@.len() ==> (#[trigger] self.persisted@[e]).number != (
            #[trigger] self.persisted@[f]).number)
        &&& self.persisted_ids_distinct()
        &&& (forall|m: int| self.next_to_check <= m < self.next_to_scan ==> #[trigger] self.has_entry(m))
        &&& (self.pending_burns@.len() > 0 ==> self.highest_acknowledged is Some)
        &&& (forall|i: int|
            0 <= i < self.pending_burns@.len() ==> self.highest_acknowledged is Some && (
            #[trigger] self.pending_burns@[i]).0 <= self.highest_acknowledged.unwrap())
    }

    /// The elder key's lifetime stage at block `n`, or `None` while it is
    /// not yet active (or there is no elder key).
    pub open spec fn current_stage(self, n: int) -> Option<LifetimeStage> {
        match self.current_key {
            None => None,
            Some(k) => spec_stage(
                k.activation_block as int,
                match self.next_key {
                    None => None,
                    Some(s) => Some(s.activation_block as int),
                },
                n,
                self.ten_minutes as int,
            ),
        }
    }

    /// The successor key's lifetime stage at block `n`, or `None` while it
    /// is not yet active (or there is no successor).
    pub open spec fn successor_stage(self, n: int) -> Option<LifetimeStage> {
        match self.next_key {
            None => None,
            Some(k) => spec_stage(k.activation_block as int, None, n, self.ten_minutes as int),
        }
    }

    /// The outputs of `block` credited to `self.current_key` at block `n`.
    pub open spec fn current_credits(self, block: Seq<Output>, n: int, dust: u64, cost: u64)
        -> Seq<Output> {
        match self.current_stage(n) {
            None => Seq::empty(),
            Some(st) => key_decided(block, self.current_key.unwrap().key@, st, dust, cost,
                ScanDecision::Credit),
        }
    }

    /// The outputs of `block` credited to `self.next_key` at block `n`.
    pub open spec fn successor_credits(self, block: Seq<Output>, n: int, dust: u64, cost: u64)
        -> Seq<Output> {
        match self.successor_stage(n) {
            None => Seq::empty(),
            Some(st) => key_decided(block, self.next_key.unwrap().key@, st, dust, cost,
                ScanDecision::Credit),
        }
    }

    /// The outputs of `block` to forward, per slot, at block `n`.
    pub open spec fn scan_forwards(self, block: Seq<Output>, n: int, dust: u64, cost: u64)
        -> Seq<Output> {
        (match self.current_stage(n) {
            None => Seq::empty(),
            Some(st) => key_decided(block, self.current_key.unwrap().key@, st, dust, cost,
                ScanDecision::Forward),
        }) + (match self.successor_stage(n) {
            None => Seq::empty(),
            Some(st) => key_decided(block, self.next_key.unwrap().key@, st, dust, cost,
                ScanDecision::Forward),
        })
    }

    /// The outputs of `block` to refund, per slot, at block `n`.
    pub open spec fn scan_refunds(self, block: Seq<Output>, n: int, dust: u64, cost: u64)
        -> Seq<Output> {
        (match self.current_stage(n) {
            None => Seq::empty(),
            Some(st) => key_decided(block, self.current_key.unwrap().key@, st, dust, cost,
                ScanDecision::Refund),
        }) + (match self.successor_stage(n) {
            None => Seq::empty(),
            Some(st) => key_decided(block, self.next_key.unwrap().key@, st, dust, cost,
                ScanDecision::Refund),
        })
    }

    /// Whether scanning `block` at block `n` finds a creditable external
    /// output for either active key.
    pub open spec fn scan_notable(self, block: Seq<Output>, n: int, dust: u64, cost: u64)
        -> bool {
        ||| (match self.current_stage(n) {
            None => false,
            Some(st) => exists|l: int|
                0 <= l < block.len() && (#[trigger] block[l]).key@
                    == self.current_key.unwrap().key@ && spec_creditable_external(
                    block[l],
                    st,
                    dust,
                    cost,
                ),
        })
        ||| (match self.successor_stage(n) {
            None => false,
            Some(st) => exists|l: int|
                0 <= l < block.len() && (#[trigger] block[l]).key@ == self.next_key.unwrap().key@
                    && spec_creditable_external(block[l], st, dust, cost),
        })
    }

    /// Whether the scanner recorded block `n` as notable.
    pub fn is_block_notable(&self, n: u64) -> (r: bool)
        ensures
            r == self.spec_notable(n as int),
    {
        let mut i: usize = 0;
        while i < self.notable.len()
            invariant
                0 <= i <= self.notable@.len(),
                forall|j: int| 0 <= j < i ==> self.notable@[j] != n,
            decreases self.notable@.len() - i,
        {
            if self.notable[i] == n {
                return true;
            }
            i = i + 1;
        }
        false
    }

    /// A fresh scanner, responsible for blocks from `start_block` on, with no
    /// key yet and nothing acknowledged.
    pub fn new(
        start_block: u64,
        window_length: u64,
        confirmations: u64,
        ten_minutes: u64,
    ) -> (scanner: Scanner)
        requires
            1 <= window_length <= confirmations,
            ten_minutes >= 1,
            start_block + window_length <= u64::MAX,
        ensures
            scanner.wf(),
            scanner.start_block == start_block,
            scanner.window_length == window_length,
            scanner.confirmations == confirmations,
            scanner.ten_minutes == ten_minutes,
            scanner.next_to_scan == start_block,
            scanner.next_to_check == start_block,
            scanner.highest_acknowledged is None,
            scanner.notable@.len() == 0,
            scanner.current_key is None,
            scanner.next_key is None,
            scanner.queued_keys@.len() == 0,
            scanner.pending_burns@.len() == 0,
            scanner.pending_eventualities@.len() == 0,
            scanner.persisted@.len() == 0,
    {
        Scanner {
            window_length,
            confirmations,
            ten_minutes,
            start_block,
            next_to_scan: start_block,
            next_to_check: start_block,
            highest_acknowledged: None,
            notable: Vec::new(),
            current_key: None,
            next_key: None,
            queued_keys: Vec::new(),
            pending_burns: Vec::new(),
            pending_eventualities: Vec::new(),
            persisted: Vec::new(),
        }
    }

    /// Acknowledge a block.
    ///
    /// The consensus layer ordered this block in relation to burns and
    /// reached synchrony on it. The block must be notable; acknowledgements
    /// must strictly increase; and every block skipped since the previous
    /// acknowledgement must be non-notable. When a key accompanies the
    /// acknowledgement, it is queued to activate one window past the
    /// acknowledged block.
    pub fn acknowledge_block(&mut self, block_number: u64, key_to_activate: Option<Vec<u8>>)
        requires
            old(self).wf(),
            old(self).spec_notable(block_number as int),
            old(self).highest_acknowledged is Some ==> block_number > old(
                self,
            ).highest_acknowledged.unwrap(),
            old(self).highest_acknowledged is Some ==> forall|m: int|
                old(self).highest_acknowledged.unwrap() < m < block_number ==> !old(
                    self,
                ).spec_notable(m),
            block_number + old(self).window_length <= u64::MAX,
            key_to_activate is Some ==> block_number + old(self).window_length + RETIRING_PERIODS
                * old(self).ten_minutes <= u64::MAX,
        ensures
            final(self).wf(),
            final(self).highest_acknowledged == Some(block_number),
            final(self).queued_keys@ == match key_to_activate {
                None => old(self).queued_keys@,
                Some(key) => old(self).queued_keys@.push(
                    ((block_number + old(self).window_length) as u64, key),
                ),
            },
            *final(self) == (Scanner {
                highest_acknowledged: Some(block_number),
                queued_keys: final(self).queued_keys,
                ..*old(self)
            }),
    {
        self.highest_acknowledged = Some(block_number);
        match key_to_activate {
            None => {},
            Some(key) => {
                self.queued_keys.push((block_number + self.window_length, key));
            },
        }
        proof {
            lemma_entries_cover(*old(self), *self);
            assert forall|i: int|
                0 <= i < self.pending_burns@.len() implies (#[trigger] self.pending_burns@[i]).0
                <= self.highest_acknowledged.unwrap() by {
                assert(old(self).pending_burns@[i].0 <= old(
                    self,
                ).highest_acknowledged.unwrap());
            }
        }
    }

    /// Queue burns for the scheduler to fulfill.
    ///
    /// Burns are stamped with the currently acknowledged block: their
    /// fulfillment is planned against the output state as of that block, so
    /// at least one block must have been acknowledged.
    pub fn queue_burns(&mut self, burns: Vec<Burn>)
        requires
            old(self).wf(),
            old(self).highest_acknowledged is Some,
        ensures
            final(self).wf(),
            final(self).pending_burns@.len() == old(self).pending_burns@.len() + burns@.len(),
            forall|i: int|
                0 <= i < old(self).pending_burns@.len() ==> final(self).pending_burns@[i] == old(
                    self,
                ).pending_burns@[i],
            forall|i: int|
                0 <= i < burns@.len() ==> final(self).pending_burns@[old(
                    self,
                ).pending_burns@.len() + i] == (old(self).highest_acknowledged.unwrap(), burns@[i]),
            *final(self) == (Scanner { pending_burns: final(self).pending_burns, ..*old(self) }),
    {
        let stamp = match self.highest_acknowledged {
            Some(a) => a,
            None => 0,
        };
        let ghost orig_burns = old(self).pending_burns@;
        let ghost orig_in = burns@;
        let mut rest = burns;
        let ghost i: int = 0;
        proof {
            assert(rest@ =~= orig_in.skip(0));
        }
        while rest.len() > 0
            invariant
                0 <= i <= orig_in.len(),
                rest@ == orig_in.skip(i),
                stamp == old(self).highest_acknowledged.unwrap(),
                old(self).highest_acknowledged is Some,
                self.pending_burns@.len() == orig_burns.len() + i,
                forall|j: int|
                    0 <= j < orig_burns.len() ==> self.pending_burns@[j] == orig_burns[j],
                forall|j: int|
                    0 <= j < i ==> self.pending_burns@[orig_burns.len() + j] == (
                        stamp,
                        orig_in[j],
                    ),
                *self == (Scanner { pending_burns: self.pending_burns, ..*old(self) }),
            decreases rest@.len(),
        {
            let burn = rest.remove(0);
            proof {
                assert(orig_in.skip(i).remove(0) =~= orig_in.skip(i + 1));
                assert(burn == orig_in[i]);
            }
            self.pending_burns.push((stamp, burn));
            proof {
                i = i + 1;
            }
        }
        proof {
            lemma_entries_cover(*old(self), *self);
            assert(orig_in.skip(i).len() == orig_in.len() - i);
            assert(i == orig_in.len());
            assert forall|k: int|
                0 <= k < self.pending_burns@.len() implies (#[trigger] self.pending_burns@[k]).0
                <= self.highest_acknowledged.unwrap() by {
                if k < orig_burns.len() {
                    assert(self.pending_burns@[k] == orig_burns[k]);
                } else {
                    let j = k - orig_burns.len();
                    assert(self.pending_burns@[orig_burns.len() + j] == (stamp, orig_in[j]));
                }
            }
        }
    }

    /// Scan the next block.
    ///
    /// `block_outputs` is everything the chain driver discovered in block
    /// `self.next_to_scan`, for any key; its IDs are pairwise distinct and
    /// fresh against everything already persisted. The block must lie inside
    /// the window past the acknowledged block. Its classified outputs are
    /// persisted for the Eventuality task, and the block is marked notable
    /// exactly when some active key gains a creditable external output.
    pub fn scan_step(&mut self, block_outputs: Vec<Output>, dust: u64, cost_to_aggregate: u64)
        requires
            old(self).wf(),
            old(self).next_to_scan < old(self).ack_bound(),
            distinct_ids(block_outputs@),
            old(self).fresh_ids(block_outputs@),
        ensures
            final(self).wf(),
            final(self).next_to_scan == old(self).next_to_scan + 1,
            final(self).persisted@.len() == old(self).persisted@.len() + 1,
            final(self).persisted@.drop_last() == old(self).persisted@,
            final(self).persisted@.last().number == old(self).next_to_scan,
            final(self).persisted@.last().outputs@.to_multiset() == old(self).current_credits(
                block_outputs@,
                old(self).next_to_scan as int,
                dust,
                cost_to_aggregate,
            ).to_multiset().add(
                old(self).successor_credits(
                    block_outputs@,
                    old(self).next_to_scan as int,
                    dust,
                    cost_to_aggregate,
                ).to_multiset(),
            ),
            final(self).persisted@.last().forwards@ == old(self).scan_forwards(
                block_outputs@,
                old(self).next_to_scan as int,
                dust,
                cost_to_aggregate,
            ),
            final(self).persisted@.last().returns@.map_values(|r: Return| r.output) == old(
                self,
            ).scan_refunds(block_outputs@, old(self).next_to_scan as int, dust, cost_to_aggregate),
            final(self).notable@ == if old(self).scan_notable(
                block_outputs@,
                old(self).next_to_scan as int,
                dust,
                cost_to_aggregate,
            ) {
                old(self).notable@.push(old(self).next_to_scan)
            } else {
                old(self).notable@
            },
            *final(self) == (Scanner {
                next_to_scan: final(self).next_to_scan,
                notable: final(self).notable,
                persisted: final(self).persisted,
                ..*old(self)
            }),
    {
        broadcast use vstd::seq_lib::group_filter_ensures;

        let n = self.next_to_scan;
        let ghost s0 = *old(self);
        let ghost blk = block_outputs@;
        let ghost ni = n as int;

        let mut entry_outputs: Vec<Output> = Vec::new();
        let mut entry_forwards: Vec<Output> = Vec::new();
        let mut entry_returns: Vec<Return> = Vec::new();
        let mut found = false;
        let ghost mut cur_part: Seq<Output> = Seq::empty();
        let ghost mut next_part: Seq<Output> = Seq::empty();

        match (&self.current_key, &self.next_key) {
            (None, _) => {
                proof {
                    lemma_empty_to_multiset();
                    assert(entry_forwards@ =~= s0.scan_forwards(blk, ni, dust, cost_to_aggregate));
                    assert(entry_returns@.map_values(|r: Return| r.output) =~= s0.scan_refunds(
                        blk,
                        ni,
                        dust,
                        cost_to_aggregate,
                    ));
                }
            },
            (Some(cur), None) => {
                match stage(cur.activation_block, None, n, self.ten_minutes) {
                    None => {
                        proof {
                            assert(entry_forwards@ =~= s0.scan_forwards(
                                blk,
                                ni,
                                dust,
                                cost_to_aggregate,
                            ));
                            assert(entry_returns@.map_values(|r: Return| r.output)
                                =~= s0.scan_refunds(blk, ni, dust, cost_to_aggregate));
                        }
                    },
                    Some(st) => {
                        let sb = scan_key_in_block(block_outputs, &cur.key, st, dust,
                            cost_to_aggregate);
                        proof {
                            cur_part = sb.outputs@;
                            assert(entry_forwards@ =~= Seq::<Output>::empty());
                        }
                        entry_outputs = sb.outputs;
                        entry_forwards = sb.forwards;
                        entry_returns = sb.returns;
                        found = sb.notable;
                        proof {
                            assert(s0.current_stage(ni) == Some(st));
                            assert(entry_outputs@ =~= cur_part + next_part);
                            assert(entry_forwards@ =~= s0.scan_forwards(
                                blk,
                                ni,
                                dust,
                                cost_to_aggregate,
                            ));
                            assert(entry_returns@.map_values(|r: Return| r.output)
                                =~= s0.scan_refunds(blk, ni, dust, cost_to_aggregate));
                        }
                    },
                }
            },
            (Some(cur), Some(nx)) => {
                let (va, vb) = partition_by_keys(block_outputs, &cur.key, &nx.key);
                let ghost kp_a = key_pred(s0.current_key.unwrap().key@);
                let ghost kp_b = key_pred(s0.next_key.unwrap().key@);
                let mut found_a = false;
                let mut found_b = false;
                match stage(cur.activation_block, Some(nx.activation_block), n,
                    self.ten_minutes) {
                    None => {},
                    Some(st) => {
                        proof {
                            lemma_filter_distinct(blk, kp_a);
                            lemma_filter_all(va@, kp_a);
                        }
                        let sb = scan_key_in_block(va, &cur.key, st, dust, cost_to_aggregate);
                        proof {
                            cur_part = sb.outputs@;
                            lemma_notable_equiv(blk, va@, s0.current_key.unwrap().key@, st,
                                dust, cost_to_aggregate);
                        }
                        entry_outputs = sb.outputs;
                        entry_forwards = sb.forwards;
                        entry_returns = sb.returns;
                        found_a = sb.notable;
                    },
                }
                match stage(nx.activation_block, None, n, self.ten_minutes) {
                    None => {},
                    Some(st) => {
                        proof {
                            lemma_filter_distinct(blk, kp_b);
                            lemma_filter_all(vb@, kp_b);
                        }
                        let mut sb = scan_key_in_block(vb, &nx.key, st, dust, cost_to_aggregate);
                        proof {
                            next_part = sb.outputs@;
                            lemma_notable_equiv(blk, vb@, s0.next_key.unwrap().key@, st,
                                dust, cost_to_aggregate);
                        }
                        let ghost eo = entry_outputs@;
                        let ghost ef = entry_forwards@;
                        let ghost er = entry_returns@;
                        entry_outputs.append(&mut sb.outputs);
                        entry_forwards.append(&mut sb.forwards);
                        entry_returns.append(&mut sb.returns);
                        found_b = sb.notable;
                        proof {
                            assert(entry_returns@.map_values(|r: Return| r.output)
                                =~= er.map_values(|r: Return| r.output) + (entry_returns@.skip(
                                er.len() as int,
                            )).map_values(|r: Return| r.output));
                        }
                    },
                }
                found = found_a || found_b;
                proof {
                    assert(entry_outputs@ =~= cur_part + next_part);
                    assert(entry_forwards@ =~= s0.scan_forwards(blk, ni, dust,
                        cost_to_aggregate));
                    assert(entry_returns@.map_values(|r: Return| r.output) =~= s0.scan_refunds(
                        blk,
                        ni,
                        dust,
                        cost_to_aggregate,
                    ));
                }
            },
        }

        proof {
            assert(entry_outputs@ == cur_part + next_part);
            vstd::seq_lib::lemma_multiset_commutative(cur_part, next_part);
            assert(cur_part.to_multiset() == s0.current_credits(
                blk,
                ni,
                dust,
                cost_to_aggregate,
            ).to_multiset());
            assert(next_part.to_multiset() == s0.successor_credits(
                blk,
                ni,
                dust,
                cost_to_aggregate,
            ).to_multiset());
        }

        let ghost old_notable = self.notable@;
        if found {
            self.notable.push(n);
        }
        let ghost old_persisted = self.persisted@;
        self.persisted.push(
            BlockData {
                number: n,
                outputs: entry_outputs,
                forwards: entry_forwards,
                returns: entry_returns,
            },
        );
        self.next_to_scan = n + 1;

        proof {
            assert(self.persisted@.drop_last() =~= old_persisted);
            let entry = self.persisted@.last();

            // Distinctness of the persisted IDs, with the new entry included.
            lemma_sorted_distinct(cur_part);
            lemma_sorted_distinct(next_part);
            if s0.current_stage(ni) is Some {
                lemma_part_elements(blk, cur_part, s0.current_key.unwrap().key@,
                    s0.current_stage(ni).unwrap(), dust, cost_to_aggregate,
                    ScanDecision::Credit);
            }
            if s0.successor_stage(ni) is Some {
                lemma_part_elements(blk, next_part, s0.next_key.unwrap().key@,
                    s0.successor_stage(ni).unwrap(), dust, cost_to_aggregate,
                    ScanDecision::Credit);
            }
            assert forall|x: int, y: int|
                0 <= x < entry.outputs@.len() && 0 <= y < entry.outputs@.len() && x != y implies (
            #[trigger] entry.outputs@[x]).id@ != (#[trigger] entry.outputs@[y]).id@ by {
                let c = cur_part.len() as int;
                if x < c && y < c {
                } else if x >= c && y >= c {
                } else {
                    let (u, v) = if x < c {
                        (x, y)
                    } else {
                        (y, x)
                    };
                    let ox = entry.outputs@[u];
                    let oy = entry.outputs@[v];
                    assert(ox == cur_part[u]);
                    assert(oy == next_part[v - c]);
                    let l = choose|l: int| 0 <= l < blk.len() && blk[l] == ox;
                    let m = choose|m: int| 0 <= m < blk.len() && blk[m] == oy;
                    if l == m {
                        assert(ox.key@ == oy.key@);
                    }
                }
            }
            assert forall|x: int|
                0 <= x < entry.outputs@.len() implies blk.contains(
                #[trigger] entry.outputs@[x]) by {
                let c = cur_part.len() as int;
                if x < c {
                    assert(entry.outputs@[x] == cur_part[x]);
                } else {
                    assert(entry.outputs@[x] == next_part[x - c]);
                }
            }
            assert forall|m: int|
                self.next_to_check <= m < self.next_to_scan implies #[trigger] self.has_entry(
                m,
            ) by {
                if m < n {
                    assert(s0.has_entry(m));
                    let e = choose|e: int|
                        0 <= e < s0.persisted@.len() && (#[trigger] s0.persisted@[e]).number == m;
                    assert(self.persisted@[e].number == m);
                } else {
                    assert(self.persisted@[old_persisted.len() as int].number == n);
                }
            }
            assert forall|a: int, x: int, b: int, y: int|
                0 <= a < self.persisted@.len() && 0 <= x < self.persisted@[a].outputs@.len() && 0
                    <= b < self.persisted@.len() && 0 <= y < self.persisted@[b].outputs@.len() && (
            a != b || x != y) implies (#[trigger] self.persisted@[a].outputs@[x]).id@ != (
            #[trigger] self.persisted@[b].outputs@[y]).id@ by {
                let old_len = old_persisted.len() as int;
                if a < old_len && b < old_len {
                    assert(self.persisted@[a] == old_persisted[a]);
                    assert(self.persisted@[b] == old_persisted[b]);
                } else if a == old_len && b == old_len {
                } else if a == old_len {
                    assert(self.persisted@[b] == old_persisted[b]);
                    let ox = self.persisted@[a].outputs@[x];
                    let l = choose|l: int| 0 <= l < blk.len() && blk[l] == ox;
                    assert(s0.persisted@[b].outputs@[y].id@ != blk[l].id@);
                } else {
                    assert(self.persisted@[a] == old_persisted[a]);
                    let oy = self.persisted@[b].outputs@[y];
                    let m = choose|m: int| 0 <= m < blk.len() && blk[m] == oy;
                    assert(s0.persisted@[a].outputs@[x].id@ != blk[m].id@);
                }
            }
        }
    }

    /// Match the pending eventualities against the transactions of block
    /// `self.next_to_check` and remove those the block resolves.
    ///
    /// `block_lookups` holds the lookup values of the block's transactions.
    /// If anything resolved, the block is marked notable; the resolved
    /// eventualities are returned.
    pub fn eventuality_match(&mut self, block_lookups: &Vec<Vec<u8>>) -> (resolved: Vec<
        Eventuality,
    >)
        requires
            old(self).wf(),
            old(self).next_to_check < old(self).next_to_scan,
        ensures
            final(self).wf(),
            final(self).pending_eventualities@ == old(self).pending_eventualities@.filter(
                unresolved_pred(block_lookups@),
            ),
            resolved@ == old(self).pending_eventualities@.filter(resolved_pred(block_lookups@)),
            forall|m: int|
                final(self).spec_notable(m) <==> (old(self).spec_notable(m) || (resolved@.len() > 0
                    && m == old(self).next_to_check)),
            final(self).next_to_check == old(self).next_to_check,
            *final(self) == (Scanner {
                pending_eventualities: final(self).pending_eventualities,
                notable: final(self).notable,
                ..*old(self)
            }),
    {
        let n = self.next_to_check;
        let mut pending: Vec<Eventuality> = Vec::new();
        core::mem::swap(&mut pending, &mut self.pending_eventualities);
        let (remaining, resolved) = match_eventualities(pending, block_lookups);
        self.pending_eventualities = remaining;
        let ghost old_notable = self.notable@;
        if resolved.len() > 0 {
            if !self.is_block_notable(n) {
                self.notable.push(n);
            }
        }
        proof {
            lemma_entries_cover(*old(self), *self);
            assert forall|m: int| #![auto] self.spec_notable(m) implies (old(self).spec_notable(m)
                || (resolved@.len() > 0 && m == old(self).next_to_check)) by {
                let w = choose|w: int| 0 <= w < self.notable@.len() && self.notable@[w] == m;
                if w < old_notable.len() {
                    assert(old(self).notable@[w] == m);
                }
            }
            assert forall|m: int| #![auto] (old(self).spec_notable(m) || (resolved@.len() > 0 && m
                == old(self).next_to_check)) implies self.spec_notable(m) by {
                if old(self).spec_notable(m) {
                    let w = choose|w: int|
                        0 <= w < old(self).notable@.len() && old(self).notable@[w] == m;
                    assert(self.notable@[w] == m);
                } else {
                    assert(self.notable@[self.notable@.len() - 1] == m);
                }
            }
        }
        resolved
    }

    /// Advance the eventuality head past block `self.next_to_check`.
    ///
    /// The head trails both the scan head and the acknowledgement window,
    /// and a notable block halts it until that very block is acknowledged.
    /// The block's persisted scan results are consumed: when the block is
    /// the acknowledged block they are handed over, together with every
    /// queued burn, for the caller to give the scheduler; burns were all
    /// queued at acknowledged heights at most this block's.
    pub fn eventuality_advance(&mut self) -> (r: Option<(SchedulerUpdate, Vec<Burn>)>)
        requires
            old(self).wf(),
            old(self).next_to_check < old(self).next_to_scan,
            old(self).next_to_check < old(self).ack_bound(),
            old(self).spec_notable(old(self).next_to_check as int) ==> old(
                self,
            ).highest_acknowledged == Some(old(self).next_to_check),
        ensures
            final(self).wf(),
            final(self).next_to_check == old(self).next_to_check + 1,
            r is Some <==> old(self).highest_acknowledged == Some(old(self).next_to_check),
            ({
                let e = old(self).entry_index(old(self).next_to_check as int);
                &&& 0 <= e < old(self).persisted@.len()
                &&& old(self).persisted@[e].number == old(self).next_to_check
                &&& final(self).persisted@ == old(self).persisted@.remove(e)
                &&& (r is Some ==> {
                    let (update, burns) = r.unwrap();
                    &&& update.outputs == old(self).persisted@[e].outputs
                    &&& update.forwards == old(self).persisted@[e].forwards
                    &&& update.returns == old(self).persisted@[e].returns
                    &&& burns@ == old(self).pending_burns@.map_values(|p: (u64, Burn)| p.1)
                    &&& forall|i: int|
                        0 <= i < old(self).pending_burns@.len() ==> (
                        #[trigger] old(self).pending_burns@[i]).0 <= old(self).next_to_check
                })
            }),
            final(self).pending_burns@ == if r is Some {
                Seq::<(u64, Burn)>::empty()
            } else {
                old(self).pending_burns@
            },
            *final(self) == (Scanner {
                next_to_check: final(self).next_to_check,
                persisted: final(self).persisted,
                pending_burns: final(self).pending_burns,
                ..*old(self)
            }),
    {
        let n = self.next_to_check;
        proof {
            assert(old(self).has_entry(n as int));
        }
        let ghost e0 = old(self).entry_index(n as int);
        let mut e: usize = 0;
        while e < self.persisted.len() && self.persisted[e].number != n
            invariant
                0 <= e <= self.persisted@.len(),
                forall|f: int| 0 <= f < e ==> (#[trigger] self.persisted@[f]).number != n,
                *self == *old(self),
            decreases self.persisted@.len() - e,
        {
            e = e + 1;
        }
        proof {
            assert(0 <= e0 < self.persisted@.len() && self.persisted@[e0].number == n);
            assert(e < self.persisted@.len()) by {
                if e == self.persisted@.len() {
                    assert(self.persisted@[e0].number != n);
                }
            }
            assert(self.persisted@[e as int].number == n);
        }
        // The found index is the unique record for this block.
        proof {
            if e != e0 {
                assert(old(self).persisted@[e as int].number == n);
                assert(old(self).persisted@[e0].number == n);
                assert(false);
            }
        }
        let entry = self.persisted.remove(e);
        self.next_to_check = n + 1;

        let is_acked = match self.highest_acknowledged {
            Some(a) => a == n,
            None => false,
        };

        let result = if is_acked {
            let mut burns_stamped: Vec<(u64, Burn)> = Vec::new();
            core::mem::swap(&mut burns_stamped, &mut self.pending_burns);
            let mut burns: Vec<Burn> = Vec::new();
            let ghost stamped_view = burns_stamped@;
            let ghost bi: int = 0;
            proof {
                assert(burns_stamped@ =~= stamped_view.skip(0));
                assert(burns@ =~= stamped_view.subrange(0, 0).map_values(|p: (u64, Burn)| p.1));
            }
            let mut rest = burns_stamped;
            while rest.len() > 0
                invariant
                    0 <= bi <= stamped_view.len(),
                    rest@ == stamped_view.skip(bi),
                    burns@ == stamped_view.subrange(0, bi).map_values(|p: (u64, Burn)| p.1),
                decreases rest@.len(),
            {
                let p = rest.remove(0);
                proof {
                    assert(stamped_view.skip(bi).remove(0) =~= stamped_view.skip(bi + 1));
                    assert(p == stamped_view[bi]);
                }
                burns.push(p.1);
                proof {
                    assert(burns@ =~= stamped_view.subrange(0, bi + 1).map_values(
                        |q: (u64, Burn)| q.1,
                    ));
                    bi = bi + 1;
                }
            }
            proof {
                assert(stamped_view.subrange(0, stamped_view.len() as int) =~= stamped_view);
            }
            Some(
                (
                    SchedulerUpdate {
                        outputs: entry.outputs,
                        forwards: entry.forwards,
                        returns: entry.returns,
                    },
                    burns,
                ),
            )
        } else {
            None
        };

        proof {
            assert(self.persisted@ =~= old(self).persisted@.remove(e0));
            assert forall|m: int|
                self.next_to_check <= m < self.next_to_scan implies #[trigger] self.has_entry(
                m,
            ) by {
                assert(old(self).has_entry(m));
                let f = choose|f: int|
                    0 <= f < old(self).persisted@.len() && (#[trigger] old(
                        self,
                    ).persisted@[f]).number == m;
                assert(m != n);
                if f < e0 {
                    assert(self.persisted@[f].number == m);
                } else {
                    assert(self.persisted@[f - 1].number == m);
                }
            }
            assert forall|a: int, x: int, b: int, y: int|
                0 <= a < self.persisted@.len() && 0 <= x < self.persisted@[a].outputs@.len() && 0
                    <= b < self.persisted@.len() && 0 <= y < self.persisted@[b].outputs@.len() && (
            a != b || x != y) implies (#[trigger] self.persisted@[a].outputs@[x]).id@ != (
            #[trigger] self.persisted@[b].outputs@[y]).id@ by {
                let a0 = if a < e0 {
                    a
                } else {
                    a + 1
                };
                let b0 = if b < e0 {
                    b
                } else {
                    b + 1
                };
                assert(self.persisted@[a] == old(self).persisted@[a0]);
                assert(self.persisted@[b] == old(self).persisted@[b0]);
            }
            if is_acked {
                assert forall|i: int|
                    0 <= i < old(self).pending_burns@.len() implies (#[trigger] old(
                    self,
                ).pending_burns@[i]).0 <= old(self).next_to_check by {}
            }
        }
        result
    }

    /// Record eventualities the scheduler newly expects.
    pub fn merge_eventualities(&mut self, new_eventualities: Vec<Eventuality>)
        requires
            old(self).wf(),
        ensures
            final(self).wf(),
            final(self).pending_eventualities@ == old(self).pending_eventualities@
                + new_eventualities@,
            *final(self) == (Scanner {
                pending_eventualities: final(self).pending_eventualities,
                ..*old(self)
            }),
    {
        let mut incoming = new_eventualities;
        self.pending_eventualities.append(&mut incoming);
        proof {
            lemma_entries_cover(*old(self), *self);
        }
    }

    /// Take the first queued key whose recorded activation height is at most
    /// `n`, if any, removing it from the queue.
    pub fn due_queued_key(&mut self, n: u64) -> (r: Option<(u64, Vec<u8>)>)
        requires
            old(self).wf(),
        ensures
            final(self).wf(),
            r is None ==> *final(self) == *old(self) && forall|i: int|
                0 <= i < old(self).queued_keys@.len() ==> (
                #[trigger] old(self).queued_keys@[i]).0 > n,
            r is Some ==> {
                let (m, key) = r.unwrap();
                exists|i: int|
                    0 <= i < old(self).queued_keys@.len() && (m, key) == #[trigger] old(
                        self,
                    ).queued_keys@[i] && m <= n && final(self).queued_keys@ == old(
                        self,
                    ).queued_keys@.remove(i)
            },
            r is Some ==> r.unwrap().0 + RETIRING_PERIODS * old(self).ten_minutes <= u64::MAX,
            *final(self) == (Scanner { queued_keys: final(self).queued_keys, ..*old(self) }),
    {
        let mut i: usize = 0;
        while i < self.queued_keys.len()
            invariant
                old(self).wf(),
                0 <= i <= self.queued_keys@.len(),
                forall|j: int| 0 <= j < i ==> (#[trigger] self.queued_keys@[j]).0 > n,
                *self == *old(self),
            decreases self.queued_keys@.len() - i,
        {
            if self.queued_keys[i].0 <= n {
                let entry = self.queued_keys.remove(i);
                proof {
                    lemma_entries_cover(*old(self), *self);
                    assert((entry.0, entry.1) == old(self).queued_keys@[i as int]);
                    assert forall|j: int|
                        0 <= j < self.queued_keys@.len() implies (
                    #[trigger] self.queued_keys@[j]).0 + RETIRING_PERIODS * self.ten_minutes
                        <= u64::MAX by {
                        if j < i {
                            assert(self.queued_keys@[j] == old(self).queued_keys@[j]);
                        } else {
                            assert(self.queued_keys@[j] == old(self).queued_keys@[j + 1]);
                        }
                    }
                }
                return Some(entry);
            }
            i = i + 1;
        }
        None
    }

    /// Install a newly activated key.
    ///
    /// The first key installed becomes the elder key; a later one becomes
    /// the successor of the elder key, which then begins its retirement
    /// stages. At most two keys are active at once, so the successor slot
    /// must be free and the new key must differ from the elder one.
    pub fn activate_key(&mut self, key: Vec<u8>, activation_block: u64)
        requires
            old(self).wf(),
            activation_block + RETIRING_PERIODS * old(self).ten_minutes <= u64::MAX,
            old(self).next_key is None,
            old(self).current_key is Some ==> old(self).current_key.unwrap().key@ != key@,
        ensures
            final(self).wf(),
            old(self).current_key is None ==> final(self).current_key == Some(
                KeyInfo { key, activation_block },
            ) && final(self).next_key is None,
            old(self).current_key is Some ==> final(self).current_key == old(self).current_key
                && final(self).next_key == Some(KeyInfo { key, activation_block }),
            *final(self) == (Scanner {
                current_key: final(self).current_key,
                next_key: final(self).next_key,
                ..*old(self)
            }),
    {
        let info = KeyInfo { key, activation_block };
        if self.current_key.is_none() {
            self.current_key = Some(info);
        } else {
            self.next_key = Some(info);
        }
        proof {
            lemma_entries_cover(*old(self), *self);
        }
    }

    /// Whether the IDs of `outputs` are fresh: no persisted output shares
    /// one.
    pub fn ids_fresh(&self, outputs: &Vec<Output>) -> (r: bool)
        ensures
            r == self.fresh_ids(outputs@),
    {
        let mut e: usize = 0;
        while e < self.persisted.len()
            invariant
                0 <= e <= self.persisted@.len(),
                forall|f: int, x: int, y: int|
                    0 <= f < e && 0 <= x < self.persisted@[f].outputs@.len() && 0 <= y
                        < outputs@.len() ==> (#[trigger] self.persisted@[f].outputs@[x]).id@ != (
                    #[trigger] outputs@[y]).id@,
            decreases self.persisted@.len() - e,
        {
            let outs = &self.persisted[e].outputs;
            let mut x: usize = 0;
            while x < outs.len()
                invariant
                    0 <= x <= outs@.len(),
                    0 <= e < self.persisted@.len(),
                    outs@ == self.persisted@[e as int].outputs@,
                    forall|w: int, y: int|
                        0 <= w < x && 0 <= y < outputs@.len() ==> (#[trigger] outs@[w]).id@ != (
                        #[trigger] outputs@[y]).id@,
                decreases outs@.len() - x,
            {
                let mut y: usize = 0;
                while y < outputs.len()
                    invariant
                        0 <= y <= outputs@.len(),
                        0 <= x < outs@.len(),
                        0 <= e < self.persisted@.len(),
                        outs@ == self.persisted@[e as int].outputs@,
                        forall|z: int| 0 <= z < y ==> outs@[x as int].id@ != (
                        #[trigger] outputs@[z]).id@,
                    decreases outputs@.len() - y,
                {
                    if bytes_eq(&outs[x].id, &outputs[y].id) {
                        proof {
                            assert(self.persisted@[e as int].outputs@[x as int].id@
                                == outputs@[y as int].id@);
                        }
                        return false;
                    }
                    y = y + 1;
                }
                x = x + 1;
            }
            e = e + 1;
        }
        true
    }

    /// Whether any persisted scan record still references `key`.
    pub fn has_persisted_outputs_for_key(&self, key: &Vec<u8>) -> (r: bool)
        ensures
            r == exists|e: int, x: int|
                0 <= e < self.persisted@.len() && 0 <= x
                    < self.persisted@[e].outputs@.len() && (#[trigger] self.persisted@[e].outputs@[x]).key@
                    == key@,
    {
        let mut e: usize = 0;
        while e < self.persisted.len()
            invariant
                0 <= e <= self.persisted@.len(),
                forall|f: int, x: int|
                    0 <= f < e && 0 <= x < self.persisted@[f].outputs@.len() ==> (
                    #[trigger] self.persisted@[f].outputs@[x]).key@ != key@,
            decreases self.persisted@.len() - e,
        {
            let outs = &self.persisted[e].outputs;
            let mut x: usize = 0;
            while x < outs.len()
                invariant
                    0 <= x <= outs@.len(),
                    outs@ == self.persisted@[e as int].outputs@,
                    0 <= e < self.persisted@.len(),
                    forall|y: int| 0 <= y < x ==> (#[trigger] outs@[y]).key@ != key@,
                decreases outs@.len() - x,
            {
                if bytes_eq(&outs[x].key, key) {
                    return true;
                }
                x = x + 1;
            }
            e = e + 1;
        }
        false
    }

    /// Retire the elder key.
    ///
    /// A key is retired only when no pending eventuality belongs to it and
    /// no persisted scan record still references it. The successor key, if
    /// any, becomes the elder key.
    pub fn retire_key(&mut self, key: &Vec<u8>)
        requires
            old(self).wf(),
            old(self).current_key is Some,
            old(self).current_key.unwrap().key@ == key@,
            forall|t: int|
                0 <= t < old(self).pending_eventualities@.len() ==> (#[trigger] old(
                    self,
                ).pending_eventualities@[t]).key@ != key@,
            forall|e: int, x: int|
                0 <= e < old(self).persisted@.len() && 0 <= x < old(
                    self,
                ).persisted@[e].outputs@.len() ==> (#[trigger] old(
                    self,
                ).persisted@[e].outputs@[x]).key@ != key@,
        ensures
            final(self).wf(),
            final(self).current_key == old(self).next_key,
            final(self).next_key is None,
            *final(self) == (Scanner {
                current_key: final(self).current_key,
                next_key: None,
                ..*old(self)
            }),
    {
        let mut promoted: Option<KeyInfo> = None;
        core::mem::swap(&mut promoted, &mut self.next_key);
        self.current_key = promoted;
        proof {
            lemma_entries_cover(*old(self), *self);
        }
    }
}

/// Acknowledgements may skip only non-notable blocks: under the
/// preconditions of `acknowledge_block`, every block strictly between the
/// previous acknowledgement and the newly acknowledged block is not notable.
pub proof fn lemma_acknowledgement_skips_only_non_notable(s: Scanner, block_number: u64, m: int)
    requires
        s.wf(),
        s.spec_notable(block_number as int),
        s.highest_acknowledged is Some,
        block_number > s.highest_acknowledged.unwrap(),
        forall|k: int| s.highest_acknowledged.unwrap() < k < block_number ==> !s.spec_notable(k),
        s.highest_acknowledged.unwrap() < m < block_number,
    ensures
        !s.spec_notable(m),
{
}

/// The scan head never advances past the acknowledged block (or, before any
/// acknowledgement, the start block) plus the look-ahead window.
pub proof fn lemma_scan_window(s: Scanner)
    requires
        s.wf(),
    ensures
        s.next_to_scan <= s.ack_bound(),
{
}

/// The eventuality head never passes the scan head, nor the acknowledged
/// block plus the look-ahead window.
pub proof fn lemma_eventuality_window(s: Scanner)
    requires
        s.wf(),
    ensures
        s.next_to_check <= s.next_to_scan,
        s.next_to_check <= s.ack_bound(),
{
}

/// What `eventuality_advance` hands the scheduler at an acknowledged block
/// comes from exactly one persisted block record: the record of the
/// acknowledged block itself. That block is at most the highest acknowledged
/// block, and no other persisted record holds an output with any of the
/// handed-over IDs.
pub proof fn lemma_update_outputs_from_acknowledged_block(s: Scanner)
    requires
        s.wf(),
        s.highest_acknowledged == Some(s.next_to_check),
        s.next_to_check < s.next_to_scan,
    ensures
        ({
            let e = s.entry_index(s.next_to_check as int);
            &&& 0 <= e < s.persisted@.len()
            &&& s.persisted@[e].number == s.next_to_check
            &&& s.persisted@[e].number <= s.highest_acknowledged.unwrap()
            &&& forall|f: int, x: int, y: int|
                0 <= f < s.persisted@.len() && f != e && 0 <= x
                    < s.persisted@[e].outputs@.len() && 0 <= y
                    < s.persisted@[f].outputs@.len() ==> (
                #[trigger] s.persisted@[e].outputs@[x]).id@ != (
                #[trigger] s.persisted@[f].outputs@[y]).id@
        }),
{
    assert(s.has_entry(s.next_to_check as int));
    let e = s.entry_index(s.next_to_check as int);
    assert(0 <= e < s.persisted@.len() && s.persisted@[e].number == s.next_to_check);
    assert forall|f: int, x: int, y: int|
        0 <= f < s.persisted@.len() && f != e && 0 <= x < s.persisted@[e].outputs@.len() && 0 <= y
            < s.persisted@[f].outputs@.len() implies (#[trigger] s.persisted@[e].outputs@[x]).id@
        != (#[trigger] s.persisted@[f].outputs@[y]).id@ by {
        assert(s.persisted_ids_distinct());
    }
}

/// A block is notable for a key exactly when the key-filtered view of the
/// block holds a creditable external output; this restates the existence
/// over the whole block.
proof fn lemma_notable_equiv(
    blk: Seq<Output>,
    fv: Seq<Output>,
    key: Seq<u8>,
    st: LifetimeStage,
    dust: u64,
    cost: u64,
)
    requires
        fv == blk.filter(key_pred(key)),
    ensures
        (exists|l: int|
            0 <= l < fv.len() && (#[trigger] fv[l]).key@ == key && spec_creditable_external(
                fv[l],
                st,
                dust,
                cost,
            )) <==> (exists|l: int|
            0 <= l < blk.len() && (#[trigger] blk[l]).key@ == key && spec_creditable_external(
                blk[l],
                st,
                dust,
                cost,
            )),
{
    broadcast use vstd::seq_lib::group_filter_ensures;

    let kp = key_pred(key);
    if exists|l: int|
        0 <= l < fv.len() && (#[trigger] fv[l]).key@ == key && spec_creditable_external(
            fv[l],
            st,
            dust,
            cost,
        ) {
        let l = choose|l: int|
            0 <= l < fv.len() && (#[trigger] fv[l]).key@ == key && spec_creditable_external(
                fv[l],
                st,
                dust,
                cost,
            );
        assert(fv.contains(fv[l]));
        lemma_in_filter(blk, kp, fv[l]);
        let m = choose|m: int| 0 <= m < blk.len() && blk[m] == fv[l];
        assert(blk[m].key@ == key && spec_creditable_external(blk[m], st, dust, cost));
    }
    if exists|l: int|
        0 <= l < blk.len() && (#[trigger] blk[l]).key@ == key && spec_creditable_external(
            blk[l],
            st,
            dust,
            cost,
        ) {
        let l = choose|l: int|
            0 <= l < blk.len() && (#[trigger] blk[l]).key@ == key && spec_creditable_external(
                blk[l],
                st,
                dust,
                cost,
            );
        assert(kp(blk[l]) == (blk[l].key@ == key));
        assert(fv.contains(blk[l]));
        let m = choose|m: int| 0 <= m < fv.len() && fv[m] == blk[l];
        assert(fv[m].key@ == key && spec_creditable_external(fv[m], st, dust, cost));
    }
}

} // verus!
