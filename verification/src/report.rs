//! Assembly of scanned external outputs into published batches.
//!
//! For each scanned block, in block order, the report step turns the block's
//! external outputs into instructions and packs them into batches of a
//! bounded size. Batch IDs per network are assigned contiguously, starting at
//! zero, in the order the batches are published.

use vstd::prelude::*;
use crate::output::Output;
use crate::codec::OutputView;

verus! {

/// One inbound instruction, derived from one external output.
pub struct InInstruction {
    /// The presumed origin of the deposit, when known.
    pub origin: Option<Vec<u8>>,
    /// The coin deposited.
    pub coin: u64,
    /// The amount deposited.
    pub amount: u64,
    /// The instruction data attached to the deposit.
    pub data: Vec<u8>,
}

/// The mathematical value of an `InInstruction`.
pub struct InInstructionView {
    /// The bytes of the presumed origin, when known.
    pub origin: Option<Seq<u8>>,
    /// The coin deposited.
    pub coin: u64,
    /// The amount deposited.
    pub amount: u64,
    /// The bytes of the instruction data.
    pub data: Seq<u8>,
}

impl View for InInstruction {
    type V = InInstructionView;

    open spec fn view(&self) -> InInstructionView {
        InInstructionView {
            origin: match self.origin {
                Some(ref a) => Some(a@),
                None => None,
            },
            coin: self.coin,
            amount: self.amount,
            data: self.data@,
        }
    }
}

/// The instruction derived from the external output `o`.
pub open spec fn spec_in_instruction(o: OutputView) -> InInstructionView {
    InInstructionView {
        origin: o.address,
        coin: o.balance.coin,
        amount: o.balance.amount,
        data: o.data,
    }
}

/// A list of detected inbound instructions for one block, published upstream.
pub struct Batch {
    /// The network the batch belongs to.
    pub network: u64,
    /// The batch's ID, monotonic per network.
    pub id: u32,
    /// The number of the block the instructions were found in.
    pub block: u64,
    /// The instructions, in the order of the outputs they derive from.
    pub instructions: Vec<InInstruction>,
}

/// The instructions of `batches`, concatenated in order.
pub open spec fn flat_instructions(batches: Seq<Batch>) -> Seq<InInstructionView>
    decreases batches.len(),
{
    if batches.len() == 0 {
        Seq::empty()
    } else {
        flat_instructions(batches.drop_last()) + batches.last().instructions@.map_values(
            |i: InInstruction| i@,
        )
    }
}

/// Turn one external output into its instruction.
pub fn in_instruction(o: Output) -> (inst: InInstruction)
    ensures
        inst@ == spec_in_instruction(o@),
{
    InInstruction {
        origin: o.address,
        coin: o.balance.coin,
        amount: o.balance.amount,
        data: o.data,
    }
}

/// Pack the external outputs of one block into batches.
///
/// The batches' instructions, concatenated, are exactly the instructions of
/// the given outputs in order. Batch IDs are `next_batch_id`, then each
/// successive integer; every batch but the last is full, every batch is
/// non-empty, and no batch exceeds `max_per_batch` instructions.
pub fn build_batches(
    network: u64,
    block: u64,
    outputs: Vec<Output>,
    next_batch_id: u32,
    max_per_batch: usize,
) -> (batches: Vec<Batch>)
    requires
        max_per_batch >= 1,
        next_batch_id + outputs@.len() <= u32::MAX,
    ensures
        flat_instructions(batches@) == outputs@.map_values(|o: Output| spec_in_instruction(o@)),
        batches@.len() <= outputs@.len(),
        batches@.len() == 0 <==> outputs@.len() == 0,
        forall|j: int| 0 <= j < batches@.len() ==> (#[trigger] batches@[j]).id == next_batch_id + j,
        forall|j: int| 0 <= j < batches@.len() ==> (#[trigger] batches@[j]).network == network,
        forall|j: int| 0 <= j < batches@.len() ==> (#[trigger] batches@[j]).block == block,
        forall|j: int| 0 <= j < batches@.len() ==> 1 <= (
        #[trigger] batches@[j]).instructions@.len() <= max_per_batch,
        forall|j: int| 0 <= j < batches@.len() - 1 ==> (
        #[trigger] batches@[j]).instructions@.len() == max_per_batch,
{
    let ghost orig = outputs@;
    let ghost to_inst = |o: Output| spec_in_instruction(o@);
    let mut rest = outputs;
    let mut batches: Vec<Batch> = Vec::new();
    let ghost i: int = 0;
    proof {
        assert(rest@ =~= orig.skip(0));
        assert(orig.subrange(0, 0).map_values(to_inst) =~= Seq::<InInstructionView>::empty());
    }
    while rest.len() > 0
        invariant
            0 <= i <= orig.len(),
            max_per_batch >= 1,
            next_batch_id + orig.len() <= u32::MAX,
            rest@ == orig.skip(i),
            batches@.len() <= i,
            batches@.len() == 0 ==> i == 0,
            i > 0 ==> batches@.len() >= 1,
            flat_instructions(batches@) == orig.subrange(0, i).map_values(to_inst),
            forall|j: int| 0 <= j < batches@.len() ==> (#[trigger] batches@[j]).id
                == next_batch_id + j,
            forall|j: int| 0 <= j < batches@.len() ==> (#[trigger] batches@[j]).network == network,
            forall|j: int| 0 <= j < batches@.len() ==> (#[trigger] batches@[j]).block == block,
            forall|j: int| 0 <= j < batches@.len() ==> 1 <= (
            #[trigger] batches@[j]).instructions@.len() <= max_per_batch,
            forall|j: int| 0 <= j < batches@.len() ==> (
            #[trigger] batches@[j]).instructions@.len() == max_per_batch || i == orig.len()
                && j == batches@.len() - 1,
            to_inst == (|o: Output| spec_in_instruction(o@)),
        decreases rest@.len(),
    {
        let ghost chunk_start = i;
        let mut instructions: Vec<InInstruction> = Vec::new();
        proof {
            assert(orig.subrange(chunk_start, chunk_start).map_values(to_inst)
                =~= Seq::<InInstructionView>::empty());
            assert(instructions@.map_values(|inst: InInstruction| inst@)
                =~= Seq::<InInstructionView>::empty());
        }
        while rest.len() > 0 && instructions.len() < max_per_batch
            invariant
                0 <= chunk_start <= i <= orig.len(),
                rest@ == orig.skip(i),
                instructions@.len() == i - chunk_start,
                instructions@.len() <= max_per_batch,
                instructions@.map_values(|inst: InInstruction| inst@) == orig.subrange(
                    chunk_start,
                    i,
                ).map_values(to_inst),
                to_inst == (|o: Output| spec_in_instruction(o@)),
            decreases rest@.len(),
        {
            let next = rest.remove(0);
            proof {
                assert(orig.skip(i).remove(0) =~= orig.skip(i + 1));
                assert(next == orig[i]);
            }
            let ghost insts_before = instructions@;
            instructions.push(in_instruction(next));
            proof {
                assert(instructions@.map_values(|inst: InInstruction| inst@) =~= insts_before
                    .map_values(|inst: InInstruction| inst@).push(spec_in_instruction(next@)));
                assert(orig.subrange(chunk_start, i + 1).map_values(to_inst) =~= orig.subrange(
                    chunk_start,
                    i,
                ).map_values(to_inst).push(to_inst(orig[i])));
                i = i + 1;
            }
        }
        let id = next_batch_id + (batches.len() as u32);
        let ghost batches_before = batches@;
        batches.push(Batch { network, id, block, instructions });
        proof {
            assert(batches@.drop_last() =~= batches_before);
            assert(flat_instructions(batches@) == flat_instructions(batches_before)
                + batches@.last().instructions@.map_values(|inst: InInstruction| inst@));
            assert(orig.subrange(0, i) =~= orig.subrange(0, chunk_start) + orig.subrange(
                chunk_start,
                i,
            ));
            assert(orig.subrange(0, i).map_values(to_inst) =~= orig.subrange(0, chunk_start)
                .map_values(to_inst) + orig.subrange(chunk_start, i).map_values(to_inst));
        }
    }
    proof {
        assert(orig.skip(i).len() == 0);
        assert(i == orig.len());
        assert(orig.subrange(0, orig.len() as int) =~= orig);
        assert(orig.map_values(to_inst) =~= orig.subrange(0, orig.len() as int).map_values(
            to_inst,
        ));
    }
    batches
}

/// The per-network state of the report step: the next batch ID to assign,
/// and (in ghost form) every batch ID published so far, in publication order.
pub struct ReportState {
    /// The network this state reports for.
    pub network: u64,
    /// The next batch ID to assign.
    pub next_batch_id: u32,
    /// Every batch ID published so far, in order.
    pub published: Ghost<Seq<u32>>,
}

impl ReportState {
    /// The IDs published so far are exactly `0, 1, …, next_batch_id - 1`, in
    /// that order.
    pub open spec fn wf(self) -> bool {
        &&& self.published@.len() == self.next_batch_id
        &&& forall|j: int| 0 <= j < self.published@.len() ==> self.published@[j] == j
    }

    /// Fresh report state: nothing published yet.
    pub fn new(network: u64) -> (state: ReportState)
        ensures
            state.wf(),
            state.network == network,
            state.next_batch_id == 0,
            state.published@ == Seq::<u32>::empty(),
    {
        ReportState { network, next_batch_id: 0, published: Ghost(Seq::empty()) }
    }

    /// Pack one block's external outputs into batches and record their IDs as
    /// published.
    ///
    /// The batches are as `build_batches` yields them, starting at this
    /// state's next unassigned ID.
    pub fn report_block(
        &mut self,
        block: u64,
        outputs: Vec<Output>,
        max_per_batch: usize,
    ) -> (batches: Vec<Batch>)
        requires
            old(self).wf(),
            max_per_batch >= 1,
            old(self).next_batch_id + outputs@.len() <= u32::MAX,
        ensures
            final(self).wf(),
            final(self).network == old(self).network,
            flat_instructions(batches@) == outputs@.map_values(
                |o: Output| spec_in_instruction(o@),
            ),
            batches@.len() == 0 <==> outputs@.len() == 0,
            forall|j: int| 0 <= j < batches@.len() ==> (#[trigger] batches@[j]).id == old(
                self,
            ).next_batch_id + j,
            forall|j: int| 0 <= j < batches@.len() ==> (#[trigger] batches@[j]).network == old(
                self,
            ).network,
            forall|j: int| 0 <= j < batches@.len() ==> (#[trigger] batches@[j]).block == block,
            forall|j: int| 0 <= j < batches@.len() ==> 1 <= (
            #[trigger] batches@[j]).instructions@.len() <= max_per_batch,
            final(self).next_batch_id == old(self).next_batch_id + batches@.len(),
            final(self).published@ == old(self).published@ + batches@.map_values(
                |b: Batch| b.id,
            ),
    {
        let batches = build_batches(
            self.network,
            block,
            outputs,
            self.next_batch_id,
            max_per_batch,
        );
        let ghost old_published = self.published@;
        self.next_batch_id = self.next_batch_id + (batches.len() as u32);
        proof {
            self.published@ = old_published + batches@.map_values(|b: Batch| b.id);
            assert forall|j: int| 0 <= j < self.published@.len() implies self.published@[j]
                == j by {
                if j >= old_published.len() {
                    assert(self.published@[j] == batches@.map_values(|b: Batch| b.id)[j
                        - old_published.len()]);
                }
            }
        }
        batches
    }
}

/// The batch IDs a well-formed report state has published form a strictly
/// increasing contiguous sequence starting at zero.
pub proof fn lemma_batch_ids_contiguous(state: ReportState)
    requires
        state.wf(),
    ensures
        forall|j: int| 0 <= j < state.published@.len() ==> state.published@[j] == j,
        forall|j: int, k: int|
            0 <= j < k < state.published@.len() ==> state.published@[j] < state.published@[k],
        state.published@.len() > 0 ==> state.published@[0] == 0,
{
}

} // verus!
