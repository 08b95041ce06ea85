//! Outputs discovered on the external chain, and their canonical order.
//!
//! Every collection of outputs the scanner handles keeps its outputs in
//! strictly ascending order of their IDs, compared lexicographically as byte
//! strings. Two outputs within one collection never share an ID.

use vstd::prelude::*;
use vstd::seq_lib::group_to_multiset_ensures;
use core::cmp::Ordering;

verus! {

/// The provenance of an output.
///
/// Only `External` outputs (new user deposits) trigger batch instructions;
/// the rest are outputs the scanner's own transactions made back to itself.
#[derive(Clone, Copy, Debug, PartialEq, Eq, Structural)]
pub enum OutputKind {
    /// A deposit from a user.
    External,
    /// An output branched off to later fulfill burns.
    Branch,
    /// Change from one of the scanner's own transactions.
    Change,
    /// An output forwarded from a retiring key to its successor.
    Forwarded,
}

/// An amount of some coin.
#[derive(Clone, Copy, Debug, PartialEq, Eq, Structural)]
pub struct Balance {
    /// Which coin the amount is denominated in.
    pub coin: u64,
    /// The amount, in the coin's indivisible units.
    pub amount: u64,
}

/// An output on the external chain payable to one of the scanner's keys.
#[derive(Clone, Debug, PartialEq, Eq)]
pub struct Output {
    /// The chain-level identifier of this output, unique per collection.
    pub id: Vec<u8>,
    /// The provenance of this output.
    pub kind: OutputKind,
    /// The encoded key this output is payable to.
    pub key: Vec<u8>,
    /// The presumed origin address, when one could be inferred; a refund can
    /// only be issued when this is known.
    pub address: Option<Vec<u8>>,
    /// The coin and amount this output carries.
    pub balance: Balance,
    /// Arbitrary data attached to the output.
    pub data: Vec<u8>,
}

/// Strict lexicographic order on byte strings: a proper prefix precedes its
/// extensions, and otherwise the first differing byte decides.
pub open spec fn lex_lt(a: Seq<u8>, b: Seq<u8>) -> bool
    decreases a.len(),
{
    if b.len() == 0 {
        false
    } else if a.len() == 0 {
        true
    } else if a[0] < b[0] {
        true
    } else if a[0] > b[0] {
        false
    } else {
        lex_lt(a.drop_first(), b.drop_first())
    }
}

/// Whether the IDs of `s` are pairwise distinct.
pub open spec fn distinct_ids(s: Seq<Output>) -> bool {
    forall|i: int, j: int| 0 <= i < j < s.len() ==> s[i].id@ != s[j].id@
}

/// The predicate selecting outputs payable to `key`.
pub open spec fn key_pred(key: Seq<u8>) -> spec_fn(Output) -> bool {
    |o: Output| o.key@ == key
}

/// Whether `s` is in strictly ascending order of output ID.
pub open spec fn sorted_by_id(s: Seq<Output>) -> bool {
    forall|i: int, j: int| 0 <= i < j < s.len() ==> lex_lt(s[i].id@, s[j].id@)
}

proof fn lemma_lex_total(a: Seq<u8>, b: Seq<u8>)
    ensures
        a == b || lex_lt(a, b) || lex_lt(b, a),
    decreases a.len(),
{
    if a.len() != 0 && b.len() != 0 && a[0] == b[0] {
        lemma_lex_total(a.drop_first(), b.drop_first());
        if a.drop_first() == b.drop_first() {
            assert(a.len() == b.len()) by {
                assert(a.drop_first().len() == b.drop_first().len());
            }
            assert forall|i: int| #![auto] 0 <= i < a.len() implies a[i] == b[i] by {
                if i > 0 {
                    assert(a.drop_first()[i - 1] == b.drop_first()[i - 1]);
                }
            }
            assert(a =~= b);
        }
    } else if a.len() == 0 && b.len() == 0 {
        assert(a =~= b);
    }
}

proof fn lemma_lex_asym(a: Seq<u8>, b: Seq<u8>)
    ensures
        lex_lt(a, b) ==> !lex_lt(b, a),
    decreases a.len(),
{
    if a.len() != 0 && b.len() != 0 && a[0] == b[0] {
        lemma_lex_asym(a.drop_first(), b.drop_first());
    }
}

proof fn lemma_lex_trans(a: Seq<u8>, b: Seq<u8>, c: Seq<u8>)
    ensures
        lex_lt(a, b) && lex_lt(b, c) ==> lex_lt(a, c),
    decreases a.len(),
{
    if a.len() != 0 && b.len() != 0 && c.len() != 0 {
        lemma_lex_trans(a.drop_first(), b.drop_first(), c.drop_first());
    }
}

/// The order `sort_outputs` imposes on IDs is a strict total order: it is
/// irreflexive, asymmetric, transitive, and any two distinct IDs are ordered
/// one way or the other.
pub proof fn lemma_id_order_strict_total(a: Seq<u8>, b: Seq<u8>, c: Seq<u8>)
    ensures
        !lex_lt(a, a),
        lex_lt(a, b) ==> !lex_lt(b, a),
        lex_lt(a, b) && lex_lt(b, c) ==> lex_lt(a, c),
        a != b ==> (lex_lt(a, b) || lex_lt(b, a)),
{
    lemma_lex_asym(a, a);
    lemma_lex_total(a, a);
    assert(a == a);
    lemma_lex_asym(a, b);
    lemma_lex_trans(a, b, c);
    lemma_lex_total(a, b);
}

/// Compare two byte strings in the order of `lex_lt`.
pub fn cmp_bytes(a: &Vec<u8>, b: &Vec<u8>) -> (o: Ordering)
    ensures
        o == Ordering::Less <==> lex_lt(a@, b@),
        o == Ordering::Greater <==> lex_lt(b@, a@),
        o == Ordering::Equal <==> a@ == b@,
{
    proof {
        lemma_lex_total(a@, b@);
        lemma_lex_asym(a@, b@);
        lemma_lex_asym(b@, a@);
    }
    let n = if a.len() < b.len() { a.len() } else { b.len() };
    let mut i: usize = 0;
    proof {
        assert(a@.skip(0) =~= a@);
        assert(b@.skip(0) =~= b@);
    }
    while i < n
        invariant
            0 <= i <= n,
            n == if a@.len() < b@.len() { a@.len() } else { b@.len() },
            forall|k: int| 0 <= k < i ==> a@[k] == b@[k],
            lex_lt(a@, b@) <==> lex_lt(a@.skip(i as int), b@.skip(i as int)),
            lex_lt(b@, a@) <==> lex_lt(b@.skip(i as int), a@.skip(i as int)),
        decreases n - i,
    {
        proof {
            assert(a@.skip(i as int)[0] == a@[i as int]);
            assert(b@.skip(i as int)[0] == b@[i as int]);
            assert(a@.skip(i as int).drop_first() =~= a@.skip(i + 1));
            assert(b@.skip(i as int).drop_first() =~= b@.skip(i + 1));
        }
        if a[i] < b[i] {
            return Ordering::Less;
        } else if a[i] > b[i] {
            return Ordering::Greater;
        }
        i = i + 1;
    }
    proof {
        assert(a@.skip(i as int).len() == a@.len() - i);
        assert(b@.skip(i as int).len() == b@.len() - i);
    }
    if a.len() < b.len() {
        Ordering::Less
    } else if a.len() > b.len() {
        Ordering::Greater
    } else {
        proof {
            assert(a@ =~= b@);
        }
        Ordering::Equal
    }
}

/// The canonical comparator over outputs: strictly order them by ID.
///
/// Two outputs within one collection sharing an ID is a broken invariant, and
/// is ruled out here; callers sort only collections with distinct IDs.
pub fn sort_outputs(a: &Output, b: &Output) -> (o: Ordering)
    requires
        a.id@ != b.id@,
    ensures
        o == Ordering::Less <==> lex_lt(a.id@, b.id@),
        o == Ordering::Greater <==> lex_lt(b.id@, a.id@),
        o != Ordering::Equal,
{
    cmp_bytes(&a.id, &b.id)
}

/// Whether `a` strictly precedes `b` in the order of `lex_lt`.
pub fn bytes_lt(a: &Vec<u8>, b: &Vec<u8>) -> (r: bool)
    ensures
        r == lex_lt(a@, b@),
{
    matches!(cmp_bytes(a, b), Ordering::Less)
}

/// Sort outputs into strictly ascending ID order.
///
/// The result holds exactly the given outputs, rearranged.
pub fn sort_by_id(outputs: Vec<Output>) -> (sorted: Vec<Output>)
    requires
        distinct_ids(outputs@),
    ensures
        sorted@.to_multiset() == outputs@.to_multiset(),
        sorted_by_id(sorted@),
        sorted@.len() == outputs@.len(),
{
    broadcast use group_to_multiset_ensures;
    broadcast use vstd::seq_lib::to_multiset_insert;

    let ghost orig = outputs@;
    let mut rest = outputs;
    let mut sorted: Vec<Output> = Vec::new();
    let ghost i: int = 0;
    assert(sorted@.to_multiset() =~= orig.subrange(0, 0).to_multiset()) by {
        assert(orig.subrange(0, 0) =~= Seq::<Output>::empty());
    }
    assert(rest@ =~= orig.skip(0));
    while rest.len() > 0
        invariant
            0 <= i <= orig.len(),
            distinct_ids(orig),
            rest@ == orig.skip(i),
            sorted@.to_multiset() == orig.subrange(0, i).to_multiset(),
            sorted@.len() == i,
            sorted_by_id(sorted@),
        decreases rest@.len(),
    {
        let ghost prefix = orig.subrange(0, i);
        let next = rest.remove(0);
        proof {
            assert(orig.skip(i).remove(0) =~= orig.skip(i + 1));
            assert(next == orig[i]);
        }

        // Everything already placed came from the strict prefix, so its ID
        // differs from the ID of the output being placed.
        assert forall|k: int| 0 <= k < sorted@.len() implies sorted@[k].id@
            != next.id@ by {
            assert(sorted@.contains(sorted@[k]));
            vstd::seq_lib::to_multiset_contains(sorted@, sorted@[k]);
            vstd::seq_lib::to_multiset_contains(prefix, sorted@[k]);
            assert(prefix.contains(sorted@[k]));
            let l = choose|l: int| 0 <= l < prefix.len() && prefix[l] == sorted@[k];
            assert(orig[l] == sorted@[k]);
        }

        // Find the first position whose ID exceeds the new output's.
        let mut pos: usize = 0;
        while pos < sorted.len() && bytes_lt(&sorted[pos].id, &next.id)
            invariant
                0 <= pos <= sorted@.len(),
                forall|k: int| 0 <= k < sorted@.len() ==> sorted@[k].id@ != next.id@,
                forall|k: int| 0 <= k < pos ==> lex_lt(sorted@[k].id@, next.id@),
            decreases sorted@.len() - pos,
        {
            pos = pos + 1;
        }
        proof {
            if pos < sorted@.len() {
                lemma_lex_total(sorted@[pos as int].id@, next.id@);
                assert(lex_lt(next.id@, sorted@[pos as int].id@));
            }
        }
        let ghost before = sorted@;
        sorted.insert(pos, next);
        proof {
            before.insert_ensures(pos as int, next);
            vstd::seq_lib::to_multiset_insert(before, pos as int, next);
            vstd::seq_lib::to_multiset_build(prefix, next);
            assert(orig.subrange(0, i + 1) =~= prefix.push(next));
            assert(sorted@ == before.insert(pos as int, next));
            assert(sorted@.to_multiset() == orig.subrange(0, i + 1).to_multiset());
            assert forall|x: int, y: int| 0 <= x < y < sorted@.len() implies lex_lt(
                sorted@[x].id@,
                sorted@[y].id@,
            ) by {
                if y < pos {
                    assert(sorted@[x] == before[x] && sorted@[y] == before[y]);
                } else if x < pos && y == pos {
                    assert(sorted@[x] == before[x] && sorted@[y] == next);
                } else if x < pos && y > pos {
                    assert(sorted@[x] == before[x] && sorted@[y] == before[y - 1]);
                    if pos <= y - 1 && x < y - 1 {
                    }
                    if x == y - 1 {
                        // impossible: x < pos <= y - 1
                    }
                } else if x == pos && y > pos {
                    assert(sorted@[x] == next && sorted@[y] == before[y - 1]);
                    assert(lex_lt(next.id@, before[pos as int].id@));
                    if pos < y - 1 {
                        assert(lex_lt(before[pos as int].id@, before[y - 1].id@));
                        lemma_lex_trans(next.id@, before[pos as int].id@, before[y - 1].id@);
                    }
                } else {
                    assert(sorted@[x] == before[x - 1] && sorted@[y] == before[y - 1]);
                }
            }
        }
        proof {
            i = i + 1;
        }
    }
    proof {
        assert(orig.subrange(0, orig.len() as int) =~= orig);
    }
    sorted
}

/// Whether the outputs' IDs are pairwise distinct.
pub fn ids_distinct(outputs: &Vec<Output>) -> (r: bool)
    ensures
        r == distinct_ids(outputs@),
{
    let mut i: usize = 0;
    while i < outputs.len()
        invariant
            0 <= i <= outputs@.len(),
            forall|x: int, y: int| 0 <= x < y < outputs@.len() && y < i ==> outputs@[x].id@
                != outputs@[y].id@,
        decreases outputs@.len() - i,
    {
        let mut j: usize = 0;
        while j < i
            invariant
                0 <= j <= i < outputs@.len(),
                forall|x: int| 0 <= x < j ==> outputs@[x].id@ != outputs@[i as int].id@,
            decreases i - j,
        {
            if bytes_eq(&outputs[j].id, &outputs[i].id) {
                return false;
            }
            j = j + 1;
        }
        i = i + 1;
    }
    true
}

/// Whether `a` and `b` hold the same bytes.
pub fn bytes_eq(a: &Vec<u8>, b: &Vec<u8>) -> (r: bool)
    ensures
        r == (a@ == b@),
{
    matches!(cmp_bytes(a, b), Ordering::Equal)
}

pub(crate) proof fn lemma_filter_push<A>(s: Seq<A>, a: A, pred: spec_fn(A) -> bool)
    ensures
        s.push(a).filter(pred) == if pred(a) {
            s.filter(pred).push(a)
        } else {
            s.filter(pred)
        },
{
    reveal(Seq::filter);
    let u = s.push(a);
    assert(u.last() == a);
    assert(u.drop_last() =~= s);
}

pub(crate) proof fn lemma_filter_all<A>(s: Seq<A>, pred: spec_fn(A) -> bool)
    requires
        forall|i: int| 0 <= i < s.len() ==> pred(#[trigger] s[i]),
    ensures
        s.filter(pred) == s,
    decreases s.len(),
{
    reveal(Seq::filter);
    if s.len() > 0 {
        let d = s.drop_last();
        assert(forall|i: int| 0 <= i < d.len() ==> pred(#[trigger] d[i])) by {
            assert(forall|i: int| 0 <= i < d.len() ==> d[i] == s[i]);
        }
        lemma_filter_all(d, pred);
        assert(pred(s.last()));
        assert(s.filter(pred) == d.push(s.last()));
        assert(d.push(s.last()) =~= s);
    } else {
        assert(s.filter(pred) =~= s);
    }
}

pub(crate) proof fn lemma_in_filter(s: Seq<Output>, pred: spec_fn(Output) -> bool, x: Output)
    ensures
        s.filter(pred).contains(x) ==> s.contains(x),
    decreases s.len(),
{
    reveal(Seq::filter);
    if s.len() > 0 {
        lemma_in_filter(s.drop_last(), pred, x);
        if s.filter(pred).contains(x) {
            if s.drop_last().contains(x) {
                let l = choose|l: int| 0 <= l < s.drop_last().len() && s.drop_last()[l] == x;
                assert(s[l] == x);
            } else if pred(s.last()) && x == s.last() {
                assert(s[s.len() - 1] == x);
            }
        }
    }
}

pub(crate) proof fn lemma_filter_distinct(s: Seq<Output>, pred: spec_fn(Output) -> bool)
    requires
        distinct_ids(s),
    ensures
        distinct_ids(s.filter(pred)),
    decreases s.len(),
{
    reveal(Seq::filter);
    if s.len() > 0 {
        let d = s.drop_last();
        assert(distinct_ids(d)) by {
            assert forall|i: int, j: int| 0 <= i < j < d.len() implies d[i].id@ != d[j].id@ by {
                assert(s[i] == d[i] && s[j] == d[j]);
            }
        }
        lemma_filter_distinct(d, pred);
        if pred(s.last()) {
            let f = d.filter(pred);
            assert forall|k: int| 0 <= k < f.len() implies f[k].id@ != s.last().id@ by {
                assert(f.contains(f[k]));
                lemma_in_filter(d, pred, f[k]);
                let l = choose|l: int| 0 <= l < d.len() && d[l] == f[k];
                assert(s[l] == f[k]);
                assert(s[l].id@ != s[s.len() - 1].id@);
            }
            assert(s.filter(pred) == f.push(s.last()));
        } else {
            assert(s.filter(pred) == d.filter(pred));
        }
    }
}

/// Keep only the outputs payable to `key`, in their given order.
pub fn filter_by_key(outputs: Vec<Output>, key: &Vec<u8>) -> (found: Vec<Output>)
    ensures
        found@ == outputs@.filter(|o: Output| o.key@ == key@),
{
    let ghost pred = |o: Output| o.key@ == key@;
    let ghost orig = outputs@;
    let mut rest = outputs;
    let mut matching: Vec<Output> = Vec::new();
    let ghost i: int = 0;
    proof {
        assert(rest@ =~= orig.skip(0));
        reveal(Seq::filter);
        assert(orig.subrange(0, 0) =~= Seq::<Output>::empty());
        assert(orig.subrange(0, 0).filter(pred) =~= Seq::<Output>::empty());
    }
    while rest.len() > 0
        invariant
            0 <= i <= orig.len(),
            rest@ == orig.skip(i),
            matching@ == orig.subrange(0, i).filter(pred),
            pred == key_pred(key@),
        decreases rest@.len(),
    {
        let ghost prefix = orig.subrange(0, i);
        let next = rest.remove(0);
        proof {
            assert(orig.skip(i).remove(0) =~= orig.skip(i + 1));
            assert(next == orig[i]);
            assert(orig.subrange(0, i + 1) =~= prefix.push(next));
            lemma_filter_push(prefix, next, pred);
        }
        if bytes_eq(&next.key, key) {
            matching.push(next);
        }
        proof {
            assert(pred(next) == (next.key@ == key@));
        }
        proof {
            i = i + 1;
        }
    }
    proof {
        assert(orig.subrange(0, orig.len() as int) =~= orig);
    }
    matching
}

/// Collect the outputs of a block payable to `key`, in strictly ascending ID
/// order.
///
/// `outputs` is everything discovered in one block, in whatever order the
/// chain driver found it; the result holds exactly those outputs whose key is
/// `key`, sorted by `sort_outputs`'s order.
pub fn scan_for_outputs(outputs: Vec<Output>, key: &Vec<u8>) -> (found: Vec<Output>)
    requires
        distinct_ids(outputs@),
    ensures
        found@.to_multiset() == outputs@.filter(key_pred(key@)).to_multiset(),
        sorted_by_id(found@),
{
    proof {
        lemma_filter_distinct(outputs@, key_pred(key@));
    }
    let matching = filter_by_key(outputs, key);
    sort_by_id(matching)
}

} // verus!
