//! Matching expected outbound transactions against scanned blocks.
//!
//! An Eventuality is a predicate identifying an expected future transaction:
//! it carries the lookup value (a nonce or commitment) by which the
//! transaction can be recognised in a block, and the key whose funds it
//! spends. A block resolves an Eventuality exactly when one of the block's
//! transactions carries its lookup value.

use vstd::prelude::*;
use crate::output::{bytes_eq, lemma_filter_push};

verus! {

/// An expected future transaction, owned by a specific key.
pub struct Eventuality {
    /// The encoded key whose funds the expected transaction spends.
    pub key: Vec<u8>,
    /// The lookup value by which the transaction is recognised in a block.
    pub lookup: Vec<u8>,
}

/// Whether a block whose transactions carry the lookup values `lookups`
/// resolves the eventuality `e`.
pub open spec fn spec_resolves(e: Eventuality, lookups: Seq<Vec<u8>>) -> bool {
    exists|t: int| 0 <= t < lookups.len() && (#[trigger] lookups[t])@ == e.lookup@
}

/// The predicate selecting eventualities the block resolves.
pub open spec fn resolved_pred(lookups: Seq<Vec<u8>>) -> spec_fn(Eventuality) -> bool {
    |e: Eventuality| spec_resolves(e, lookups)
}

/// The predicate selecting eventualities the block leaves pending.
pub open spec fn unresolved_pred(lookups: Seq<Vec<u8>>) -> spec_fn(Eventuality) -> bool {
    |e: Eventuality| !spec_resolves(e, lookups)
}

/// Whether one of `lookups` holds exactly the bytes `x`.
pub fn contains_bytes(lookups: &Vec<Vec<u8>>, x: &Vec<u8>) -> (r: bool)
    ensures
        r == exists|t: int| 0 <= t < lookups@.len() && (#[trigger] lookups@[t])@ == x@,
{
    let mut t: usize = 0;
    while t < lookups.len()
        invariant
            0 <= t <= lookups@.len(),
            forall|s: int| 0 <= s < t ==> (#[trigger] lookups@[s])@ != x@,
        decreases lookups@.len() - t,
    {
        if bytes_eq(&lookups[t], x) {
            return true;
        }
        t = t + 1;
    }
    false
}

/// Match pending eventualities against one block's transactions.
///
/// The first result holds the eventualities the block did not resolve, the
/// second those it did; each pending eventuality lands in exactly one of the
/// two, in its original order. The block is notable on account of
/// eventualities exactly when the second result is non-empty.
pub fn match_eventualities(pending: Vec<Eventuality>, block_lookups: &Vec<Vec<u8>>) -> (r: (
    Vec<Eventuality>,
    Vec<Eventuality>,
))
    ensures
        r.0@ == pending@.filter(unresolved_pred(block_lookups@)),
        r.1@ == pending@.filter(resolved_pred(block_lookups@)),
{
    let ghost keep = unresolved_pred(block_lookups@);
    let ghost gone = resolved_pred(block_lookups@);
    let ghost orig = pending@;
    let mut rest = pending;
    let mut remaining: Vec<Eventuality> = Vec::new();
    let mut resolved: Vec<Eventuality> = Vec::new();
    let ghost i: int = 0;
    proof {
        reveal(Seq::filter);
        assert(rest@ =~= orig.skip(0));
        assert(orig.subrange(0, 0) =~= Seq::<Eventuality>::empty());
        assert(orig.subrange(0, 0).filter(keep) =~= Seq::<Eventuality>::empty());
        assert(orig.subrange(0, 0).filter(gone) =~= Seq::<Eventuality>::empty());
    }
    while rest.len() > 0
        invariant
            0 <= i <= orig.len(),
            rest@ == orig.skip(i),
            remaining@ == orig.subrange(0, i).filter(keep),
            resolved@ == orig.subrange(0, i).filter(gone),
            keep == unresolved_pred(block_lookups@),
            gone == resolved_pred(block_lookups@),
        decreases rest@.len(),
    {
        let ghost prefix = orig.subrange(0, i);
        let next = rest.remove(0);
        proof {
            assert(orig.skip(i).remove(0) =~= orig.skip(i + 1));
            assert(next == orig[i]);
            assert(orig.subrange(0, i + 1) =~= prefix.push(next));
            lemma_filter_push(prefix, next, keep);
            lemma_filter_push(prefix, next, gone);
            assert(gone(next) == spec_resolves(next, block_lookups@));
            assert(keep(next) == !spec_resolves(next, block_lookups@));
        }
        if contains_bytes(block_lookups, &next.lookup) {
            resolved.push(next);
        } else {
            remaining.push(next);
        }
        proof {
            i = i + 1;
        }
    }
    proof {
        assert(orig.subrange(0, orig.len() as int) =~= orig);
    }
    (remaining, resolved)
}

/// Whether any eventuality in `pending` belongs to `key`.
pub fn has_eventualities_for_key(pending: &Vec<Eventuality>, key: &Vec<u8>) -> (r: bool)
    ensures
        r == exists|t: int| 0 <= t < pending@.len() && (#[trigger] pending@[t]).key@ == key@,
{
    let mut t: usize = 0;
    while t < pending.len()
        invariant
            0 <= t <= pending@.len(),
            forall|s: int| 0 <= s < t ==> (#[trigger] pending@[s]).key@ != key@,
        decreases pending@.len() - t,
    {
        if bytes_eq(&pending[t].key, key) {
            return true;
        }
        t = t + 1;
    }
    false
}

} // verus!
