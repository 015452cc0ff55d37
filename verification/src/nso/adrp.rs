//! Finding out what page addresses are used for.
//!
//! An `adrp` loads the address of a page, and a later instruction adds the offset in it. The two may
//! be blocks apart. First each block is analysed on its own: which page addresses are left in
//! registers at its end, which registers it overwrites, and which instructions would need a page
//! address from before the block. Then every page address is followed through the blocks behind.

use rangemap::RangeMap;
use std::collections::{HashMap, HashSet};
use vstd::prelude::*;

use crate::bytes;
use crate::error::Error;
use crate::nso::blocks::{self, check_plain, decode, BasicBlock, BlockView};
use crate::nso::disasm::{self, Detail, DetailView, Instruction, InstructionView};
use crate::nso::opcode::{
    self, get_operand_imm, get_operand_mem, get_operand_reg, get_reg_type, widen, Opcode, REG_X0,
    REG_X17,
};
use crate::ranges::{self, insert_range, new_range_map, value_at};
use crate::reference_tracker::{
    self, DataRefType, Reference, ReferenceSource, ReferenceTracker,
};

verus! {

/// An instruction that adds an offset to a register from before its block.
#[derive(Debug, Clone, Copy, PartialEq, Eq, Structural)]
pub struct PotentialRef {
    pub register: u16,
    pub offset: i64,
    pub source_type: ReferenceSource,
    /// Address of the instruction.
    pub source_offset: u64,
    pub ref_type: DataRefType,
}

/// A page address in a register.
#[derive(Debug, Clone, Copy, PartialEq, Eq, Structural)]
pub struct AdrpInfo {
    pub target: u64,
    /// Address of the `adrp` instruction.
    pub location: u64,
    /// Some instruction has added an offset to it.
    pub has_been_used: bool,
    /// An `add` has changed the address itself.
    pub is_added: bool,
}

/// What is known of a block.
pub struct BlockState {
    /// The page addresses that are in registers at the end.
    pub adrp_targets_at_end: Vec<(u16, AdrpInfo)>,
    /// The 64-bit integer registers that are overwritten.
    pub destroyed_regs: HashSet<u16>,
    pub potential_refs: Vec<PotentialRef>,
}

/// What a [`BlockState`] says.
#[verifier::ext_equal]
pub struct StateView {
    pub adrps: Seq<(u16, AdrpInfo)>,
    pub destroyed: Set<u16>,
    pub potential: Seq<PotentialRef>,
}

impl View for BlockState {
    type V = StateView;

    open spec fn view(&self) -> StateView {
        StateView {
            adrps: self.adrp_targets_at_end@,
            destroyed: self.destroyed_regs@,
            potential: self.potential_refs@,
        }
    }
}

/// Every state by its view.
pub open spec fn state_views(states: Seq<BlockState>) -> Seq<StateView> {
    states.map_values(|s: BlockState| s@)
}

/// A block of which nothing is known yet.
pub open spec fn fresh_state() -> StateView {
    StateView { adrps: Seq::empty(), destroyed: Set::empty(), potential: Seq::empty() }
}

/// As many fresh blocks.
pub open spec fn fresh_states(count: nat) -> Seq<StateView> {
    Seq::new(count, |k: int| fresh_state())
}

/// The place of `reg` in `adrps`, from the `from`-th entry on.
pub open spec fn adrp_index(adrps: Seq<(u16, AdrpInfo)>, reg: u16, from: int) -> Option<int>
    decreases adrps.len() - from,
{
    if from >= adrps.len() {
        None
    } else if adrps[from].0 == reg {
        Some(from)
    } else {
        adrp_index(adrps, reg, from + 1)
    }
}

/// The page address in `reg` has been used before.
pub open spec fn was_used(state: StateView, reg: u16) -> bool {
    match adrp_index(state.adrps, reg, 0) {
        Some(k) => state.adrps[k].1.has_been_used,
        None => false,
    }
}

/// `refs` after an instruction has turned out to add `offset` to the page address `adrp`.
pub open spec fn resolved(
    refs: Seq<Reference>,
    adrp: AdrpInfo,
    offset: i64,
    source_type: ReferenceSource,
    source: u64,
    ref_type: DataRefType,
) -> Seq<Reference> {
    let target = bytes::wrap64(adrp.target + offset);
    refs.push(Reference { source, source_type, target, target_type: ref_type }).push(
        Reference {
            source: adrp.location,
            source_type: ReferenceSource::ADRP,
            target,
            target_type: ref_type,
        },
    )
}

/// A block, and all references, after an instruction in it that adds an offset to a register.
pub open spec fn offset_noted(
    state: StateView,
    refs: Seq<Reference>,
    use_of: PotentialRef,
) -> (StateView, Seq<Reference>) {
    match adrp_index(state.adrps, use_of.register, 0) {
        Some(k) => {
            let adrp = state.adrps[k].1;
            (
                StateView {
                    adrps: state.adrps.update(
                        k,
                        (state.adrps[k].0, AdrpInfo { has_been_used: true, ..adrp }),
                    ),
                    ..state
                },
                resolved(
                    refs,
                    adrp,
                    use_of.offset,
                    use_of.source_type,
                    use_of.source_offset,
                    use_of.ref_type,
                ),
            )
        },
        None => if state.destroyed.contains(use_of.register) {
            (state, refs)
        } else {
            (StateView { potential: state.potential.push(use_of), ..state }, refs)
        },
    }
}

/// What a load or store moves.
pub open spec fn access_type(op: Opcode, detail: DetailView, address: u64) -> Result<
    DataRefType,
    Error,
> {
    match opcode::operand_reg_type(detail, 0) {
        Err(e) => Err(e),
        Ok(reg_type) => if op == Opcode::Ldr || op == Opcode::Str {
            Ok(reg_type)
        } else if reg_type != DataRefType::Int32 && reg_type != DataRefType::Int64 {
            Err(Error::UnexpectedRegisterType { address })
        } else if op == Opcode::HalfAccess {
            Ok(DataRefType::Int16)
        } else {
            Ok(DataRefType::Int8)
        },
    }
}

/// What an instruction does to its block, before the registers that it writes are taken into
/// account: the references, the block, and the page address that it loads.
pub open spec fn handled(
    op: Opcode,
    detail: DetailView,
    address: u64,
    block_end: u64,
    state: StateView,
    refs: Seq<Reference>,
) -> (Seq<Reference>, Result<(StateView, Option<(u16, AdrpInfo)>), Error>) {
    if op == Opcode::Blr || op == Opcode::Bl {
        (refs, Ok((state, None)))
    } else if op.ends_block() {
        if blocks::behind(address) == block_end {
            (refs, Ok((state, None)))
        } else {
            (refs, Err(Error::BranchInsideBlock { address }))
        }
    } else if op == Opcode::Adr {
        (refs, Err(Error::UnhandledAdr { address }))
    } else if op == Opcode::Adrp {
        match (opcode::operand_reg(detail, 0), opcode::operand_imm(detail, 1)) {
            (Ok((reg, _)), Ok(target)) => (
                refs,
                Ok(
                    (
                        state,
                        Some(
                            (
                                reg,
                                AdrpInfo {
                                    target,
                                    location: address,
                                    has_been_used: false,
                                    is_added: false,
                                },
                            ),
                        ),
                    ),
                ),
            ),
            _ => (refs, Err(Error::UnexpectedOperand)),
        }
    } else if op == Opcode::Add {
        match opcode::operand_imm(detail, 2) {
            Err(_) => (refs, Ok((state, None))),
            Ok(imm) => match opcode::operand_reg(detail, 1) {
                Err(e) => (refs, Err(e)),
                Ok((register, _)) => {
                    let (after, found) = offset_noted(
                        state,
                        refs,
                        PotentialRef {
                            register,
                            offset: bytes::signed(imm as int, 0x8000_0000_0000_0000) as i64,
                            source_type: ReferenceSource::ADD(was_used(state, register)),
                            source_offset: address,
                            ref_type: DataRefType::Unknown,
                        },
                    );
                    (found, Ok((after, None)))
                },
            },
        }
    } else if op.is_access() {
        match (access_type(op, detail, address), opcode::operand_mem(detail, 1)) {
            (Err(e), _) => (refs, Err(e)),
            (Ok(_), Err(e)) => (refs, Err(e)),
            (Ok(ref_type), Ok((register, _, disp))) => {
                let (after, found) = offset_noted(
                    state,
                    refs,
                    PotentialRef {
                        register,
                        offset: disp as i64,
                        source_type: ReferenceSource::LDR_STR(was_used(state, register)),
                        source_offset: address,
                        ref_type,
                    },
                );
                (found, Ok((after, None)))
            },
        }
    } else {
        match blocks::plain_check(address, detail) {
            Ok(()) => (refs, Ok((state, None))),
            Err(e) => (refs, Err(e)),
        }
    }
}

/// An instruction overwrites the 64-bit register `reg`: directly, by its lower half, or by a call,
/// which may change X0 to X17.
pub open spec fn destroys(op: Opcode, detail: DetailView, reg: u16) -> bool {
    ||| exists|k: int|
        0 <= k < detail.regs_write.len() && opcode::widened(#[trigger] detail.regs_write[k])
            == Some(reg)
    ||| (op == Opcode::Blr || op == Opcode::Bl) && REG_X0 <= reg <= REG_X17
}

/// `adrps` with the page address `info` in `reg`.
pub open spec fn adrp_put(adrps: Seq<(u16, AdrpInfo)>, reg: u16, info: AdrpInfo) -> Seq<
    (u16, AdrpInfo),
> {
    match adrp_index(adrps, reg, 0) {
        Some(k) => adrps.update(k, (reg, info)),
        None => adrps.push((reg, info)),
    }
}

/// The block once the registers that an instruction writes are taken into account.
pub open spec fn written(
    state: StateView,
    op: Opcode,
    detail: DetailView,
    loaded: Option<(u16, AdrpInfo)>,
) -> StateView {
    let kept = state.adrps.filter(|entry: (u16, AdrpInfo)| !destroys(op, detail, entry.0));
    StateView {
        adrps: match loaded {
            Some((reg, info)) => adrp_put(kept, reg, info),
            None => kept,
        },
        destroyed: state.destroyed.union(Set::new(|reg: u16| destroys(op, detail, reg))),
        potential: state.potential,
    }
}

/// What an instruction does to its block.
pub open spec fn analyzed(
    op: Opcode,
    detail: DetailView,
    address: u64,
    block_end: u64,
    state: StateView,
    refs: Seq<Reference>,
) -> (Seq<Reference>, Result<StateView, Error>) {
    let (found, outcome) = handled(op, detail, address, block_end, state, refs);
    match outcome {
        Err(e) => (found, Err(e)),
        Ok((after, loaded)) => (found, Ok(written(after, op, detail, loaded))),
    }
}

fn find_adrp(adrps: &Vec<(u16, AdrpInfo)>, reg: u16) -> (r: Option<usize>)
    ensures
        match r {
            Some(k) => adrp_index(adrps@, reg, 0) == Some(k as int) && k < adrps@.len()
                && adrps@[k as int].0 == reg,
            None => adrp_index(adrps@, reg, 0) is None,
        },
{
    let mut i: usize = 0;
    while i < adrps.len()
        invariant
            i <= adrps@.len(),
            adrp_index(adrps@, reg, 0) == adrp_index(adrps@, reg, i as int),
        decreases adrps@.len() - i,
    {
        if adrps[i].0 == reg {
            return Some(i);
        }
        i = i + 1;
    }
    None
}

fn destroys_register(op: Opcode, detail: &Detail, reg: u16) -> (r: bool)
    ensures
        r == destroys(op, detail@, reg),
{
    let mut i: usize = 0;
    while i < detail.regs_write.len()
        invariant
            i <= detail.regs_write@.len(),
            forall|k: int|
                0 <= k < i ==> opcode::widened(#[trigger] detail.regs_write@[k]) != Some(reg),
        decreases detail.regs_write@.len() - i,
    {
        if let Some(wide) = widen(detail.regs_write[i]) {
            if wide == reg {
                assert(opcode::widened(detail@.regs_write[i as int]) == Some(reg));
                return true;
            }
        }
        i = i + 1;
    }
    assert(forall|k: int|
        0 <= k < detail@.regs_write.len() ==> opcode::widened(#[trigger] detail@.regs_write[k])
            != Some(reg));
    (op == Opcode::Blr || op == Opcode::Bl) && REG_X0 <= reg && reg <= REG_X17
}

impl BlockState {
    pub fn new() -> (r: Self)
        ensures
            r@ == fresh_state(),
    {
        let r = BlockState {
            adrp_targets_at_end: Vec::new(),
            destroyed_regs: HashSet::new(),
            potential_refs: Vec::new(),
        };
        assert(r@ =~= fresh_state());
        r
    }

    fn is_used(&self, reg: u16) -> (r: bool)
        ensures
            r == was_used(self@, reg),
    {
        match find_adrp(&self.adrp_targets_at_end, reg) {
            Some(k) => self.adrp_targets_at_end[k].1.has_been_used,
            None => false,
        }
    }

    fn note_offset(&mut self, use_of: PotentialRef, tracker: &mut ReferenceTracker)
        ensures
            (final(self)@, final(tracker)@) == offset_noted(old(self)@, old(tracker)@, use_of),
    {
        match find_adrp(&self.adrp_targets_at_end, use_of.register) {
            Some(k) => {
                let (reg, adrp): (u16, AdrpInfo) = self.adrp_targets_at_end[k];
                let target: u64 = bytes::offset_address(adrp.target, use_of.offset);
                tracker.add_reference(
                    target,
                    use_of.source_type,
                    use_of.source_offset,
                    use_of.ref_type,
                );
                tracker.add_reference(
                    target,
                    ReferenceSource::ADRP,
                    adrp.location,
                    use_of.ref_type,
                );
                self.adrp_targets_at_end.set(k, (reg, AdrpInfo { has_been_used: true, ..adrp }));
            },
            None => {
                if !self.destroyed_regs.contains(&use_of.register) {
                    self.potential_refs.push(use_of);
                }
            },
        }
    }

    fn handle(
        &mut self,
        op: Opcode,
        detail: &Detail,
        address: u64,
        block_end: u64,
        tracker: &mut ReferenceTracker,
    ) -> (r: Result<Option<(u16, AdrpInfo)>, Error>)
        requires
            address + 4 <= u64::MAX,
        ensures
            match r {
                Ok(loaded) => handled(
                    op,
                    detail@,
                    address,
                    block_end,
                    old(self)@,
                    old(tracker)@,
                ) == (
                    final(tracker)@,
                    Ok::<(StateView, Option<(u16, AdrpInfo)>), Error>((final(self)@, loaded)),
                ),
                Err(e) => handled(
                    op,
                    detail@,
                    address,
                    block_end,
                    old(self)@,
                    old(tracker)@,
                ) == (
                    final(tracker)@,
                    Err::<(StateView, Option<(u16, AdrpInfo)>), Error>(e),
                ),
            },
    {
        match op {
            Opcode::Blr | Opcode::Bl => Ok(None),
            Opcode::Br
            | Opcode::B
            | Opcode::TestBranch
            | Opcode::CompareBranch
            | Opcode::ConditionalBranch
            | Opcode::Ret => {
                if address + 4 != block_end {
                    return Err(Error::BranchInsideBlock { address });
                }
                Ok(None)
            },
            Opcode::Adr => Err(Error::UnhandledAdr { address }),
            Opcode::Adrp => {
                let reg: u16 = get_operand_reg(detail, 0)?;
                let target: u64 = get_operand_imm(detail, 1)?;
                let info = AdrpInfo {
                    target,
                    location: address,
                    has_been_used: false,
                    is_added: false,
                };
                Ok(Some((reg, info)))
            },
            Opcode::Add => {
                // only offsets in the instruction itself are of interest
                if let Ok(imm) = get_operand_imm(detail, 2) {
                    let register: u16 = get_operand_reg(detail, 1)?;
                    let use_of = PotentialRef {
                        register,
                        offset: bytes::to_i64(imm),
                        source_type: ReferenceSource::ADD(self.is_used(register)),
                        source_offset: address,
                        ref_type: DataRefType::Unknown,
                    };
                    self.note_offset(use_of, tracker);
                }
                Ok(None)
            },
            Opcode::Ldr | Opcode::Str | Opcode::HalfAccess | Opcode::ByteAccess => {
                let reg_type: DataRefType = get_reg_type(detail, 0)?;
                let ref_type: DataRefType = if op == Opcode::Ldr || op == Opcode::Str {
                    reg_type
                } else {
                    if reg_type != DataRefType::Int32 && reg_type != DataRefType::Int64 {
                        return Err(Error::UnexpectedRegisterType { address });
                    }
                    if op == Opcode::HalfAccess {
                        DataRefType::Int16
                    } else {
                        DataRefType::Int8
                    }
                };
                let (register, disp): (u16, i32) = get_operand_mem(detail, 1)?;
                let use_of = PotentialRef {
                    register,
                    offset: disp as i64,
                    source_type: ReferenceSource::LDR_STR(self.is_used(register)),
                    source_offset: address,
                    ref_type,
                };
                self.note_offset(use_of, tracker);
                Ok(None)
            },
            _ => {
                check_plain(address, detail)?;
                Ok(None)
            },
        }
    }

    /// Marks the registers that an instruction writes as overwritten.
    fn note_writes(&mut self, op: Opcode, detail: &Detail, loaded: Option<(u16, AdrpInfo)>)
        ensures
            final(self)@ == written(old(self)@, op, detail@, loaded),
    {
        let ghost before = self@;
        let ghost lost = Set::new(|reg: u16| destroys(op, detail@, reg));
        let mut i: usize = 0;
        while i < detail.regs_write.len()
            invariant
                i <= detail.regs_write@.len(),
                self@.adrps == before.adrps,
                self@.potential == before.potential,
                forall|reg: u16| #[trigger]
                    self@.destroyed.contains(reg) <==> before.destroyed.contains(reg) || exists|
                        k: int,
                    |
                        0 <= k < i && opcode::widened(#[trigger] detail.regs_write@[k]) == Some(
                            reg,
                        ),
            decreases detail.regs_write@.len() - i,
        {
            let ghost so_far = self@.destroyed;
            if let Some(wide) = widen(detail.regs_write[i]) {
                self.destroyed_regs.insert(wide);
            }
            assert forall|reg: u16| #[trigger] self@.destroyed.contains(reg) <==> so_far.contains(reg)
                || opcode::widened(detail.regs_write@[i as int]) == Some(reg) by {}
            i = i + 1;
        }
        if op == Opcode::Blr || op == Opcode::Bl {
            let ghost direct = self@.destroyed;
            let mut reg: u16 = REG_X0;
            while reg <= REG_X17
                invariant
                    REG_X0 <= reg <= REG_X17 + 1,
                    self@.adrps == before.adrps,
                    self@.potential == before.potential,
                    forall|x: u16| #[trigger]
                        self@.destroyed.contains(x) <==> direct.contains(x) || REG_X0 <= x < reg,
                decreases REG_X17 + 1 - reg,
            {
                let ghost so_far = self@.destroyed;
                self.destroyed_regs.insert(reg);
                assert(self@.destroyed == so_far.insert(reg));
                reg = reg + 1;
            }
        }
        assert(self@.destroyed =~= before.destroyed.union(lost)) by {
            assert(detail@.regs_write == detail.regs_write@);
        }
        let ghost keep = |entry: (u16, AdrpInfo)| !destroys(op, detail@, entry.0);
        let mut kept: Vec<(u16, AdrpInfo)> = Vec::new();
        let mut i: usize = 0;
        while i < self.adrp_targets_at_end.len()
            invariant
                i <= self.adrp_targets_at_end@.len(),
                keep == (|entry: (u16, AdrpInfo)| !destroys(op, detail@, entry.0)),
                kept@ == self.adrp_targets_at_end@.take(i as int).filter(keep),
            decreases self.adrp_targets_at_end@.len() - i,
        {
            let entry: (u16, AdrpInfo) = self.adrp_targets_at_end[i];
            reveal(Seq::filter);
            assert(self.adrp_targets_at_end@.take(i + 1).drop_last()
                == self.adrp_targets_at_end@.take(i as int));
            if !destroys_register(op, detail, entry.0) {
                kept.push(entry);
            }
            i = i + 1;
        }
        assert(self.adrp_targets_at_end@.take(i as int) == self.adrp_targets_at_end@);
        if let Some((reg, info)) = loaded {
            match find_adrp(&kept, reg) {
                Some(k) => {
                    kept.set(k, (reg, info));
                },
                None => {
                    kept.push((reg, info));
                },
            }
        }
        self.adrp_targets_at_end = kept;
        assert(self@ =~= written(before, op, detail@, loaded));
    }

    fn analyze(
        &mut self,
        op: Opcode,
        detail: &Detail,
        address: u64,
        block_end: u64,
        tracker: &mut ReferenceTracker,
    ) -> (r: Result<(), Error>)
        requires
            address + 4 <= u64::MAX,
        ensures
            match r {
                Ok(()) => analyzed(
                    op,
                    detail@,
                    address,
                    block_end,
                    old(self)@,
                    old(tracker)@,
                ) == (final(tracker)@, Ok::<StateView, Error>(final(self)@)),
                Err(e) => analyzed(
                    op,
                    detail@,
                    address,
                    block_end,
                    old(self)@,
                    old(tracker)@,
                ) == (final(tracker)@, Err::<StateView, Error>(e)),
            },
    {
        let loaded = self.handle(op, detail, address, block_end, tracker)?;
        self.note_writes(op, detail, loaded);
        Ok(())
    }
}

/// The place of the block that holds `address`, from the `from`-th on.
pub open spec fn block_index(blocks: Seq<BlockView>, address: u64, from: int) -> Option<int>
    decreases blocks.len() - from,
{
    if from >= blocks.len() {
        None
    } else if blocks[from].start <= address < blocks[from].end {
        Some(from)
    } else {
        block_index(blocks, address, from + 1)
    }
}

/// The blocks after the instructions from the `from`-th on, up to the first one that cannot be
/// handled.
pub open spec fn local_analysis(
    insns: Seq<InstructionView>,
    from: int,
    blocks: Seq<BlockView>,
    states: Seq<StateView>,
    refs: Seq<Reference>,
) -> (Seq<Reference>, Result<Seq<StateView>, Error>)
    decreases insns.len() - from,
{
    if from >= insns.len() {
        (refs, Ok(states))
    } else {
        let address = insns[from].address;
        match blocks::decoded(insns[from]) {
            Err(e) => (refs, Err(e)),
            Ok(None) => local_analysis(insns, from + 1, blocks, states, refs),
            Ok(Some((op, detail))) => match block_index(blocks, address, 0) {
                None => (refs, Err(Error::NoBlock { address })),
                Some(k) => {
                    let (found, outcome) = analyzed(
                        op,
                        detail,
                        address,
                        blocks[k].end,
                        states[k],
                        refs,
                    );
                    match outcome {
                        Err(e) => (found, Err(e)),
                        Ok(state) => local_analysis(
                            insns,
                            from + 1,
                            blocks,
                            states.update(k, state),
                            found,
                        ),
                    }
                },
            },
        }
    }
}

/// Blocks that are not empty, lowest first, and do not overlap.
pub open spec fn are_sorted(blocks: Seq<BlockView>) -> bool {
    &&& forall|k: int| 0 <= k < blocks.len() ==> (#[trigger] blocks[k]).start < blocks[k].end
    &&& forall|k: int, l: int|
        0 <= k < l < blocks.len() ==> (#[trigger] blocks[k]).end <= (#[trigger] blocks[l]).start
}

/// `m` holds the place of the block of each address.
spec fn numbers_blocks(m: Map<u64, u64>, blocks: Seq<BlockView>, count: int) -> bool {
    &&& forall|a: u64| #[trigger]
        m.contains_key(a) ==> m[a] < count && blocks[m[a] as int].start <= a
            < blocks[m[a] as int].end
    &&& forall|a: u64, k: int|
        0 <= k < count && (#[trigger] blocks[k]).start <= a < blocks[k].end
            ==> #[trigger] m.contains_key(a)
}

proof fn lemma_block_index(blocks: Seq<BlockView>, address: u64, from: int)
    requires
        0 <= from <= blocks.len(),
    ensures
        match block_index(blocks, address, from) {
            Some(k) => from <= k < blocks.len() && blocks[k].start <= address < blocks[k].end,
            None => forall|k: int|
                from <= k < blocks.len() ==> !((#[trigger] blocks[k]).start <= address
                    < blocks[k].end),
        },
    decreases blocks.len() - from,
{
    if from < blocks.len() && !(blocks[from].start <= address < blocks[from].end) {
        lemma_block_index(blocks, address, from + 1);
    }
}

fn number_blocks(list: &Vec<BasicBlock>) -> (r: RangeMap<u64, u64>)
    requires
        are_sorted(blocks::block_views(list@)),
    ensures
        numbers_blocks(
            ranges::entries(r),
            blocks::block_views(list@),
            list@.len() as int,
        ),
{
    let ghost views = blocks::block_views(list@);
    let mut map = new_range_map();
    let mut i: usize = 0;
    while i < list.len()
        invariant
            i <= list@.len(),
            views == blocks::block_views(list@),
            are_sorted(views),
            numbers_blocks(ranges::entries(map), views, i as int),
        decreases list@.len() - i,
    {
        let ghost before = ranges::entries(map);
        assert(views[i as int] == list@[i as int]@);
        insert_range(&mut map, list[i].start, list[i].end, i as u64);
        let ghost after = ranges::entries(map);
        i = i + 1;
    }
    map
}

/// The place of the block that holds `address`.
fn find_block(map: &RangeMap<u64, u64>, list: &Vec<BasicBlock>, address: u64) -> (r: Option<usize>)
    requires
        are_sorted(blocks::block_views(list@)),
        numbers_blocks(
            ranges::entries(*map),
            blocks::block_views(list@),
            list@.len() as int,
        ),
    ensures
        match r {
            Some(k) => k < list@.len() && block_index(blocks::block_views(list@), address, 0)
                == Some(k as int),
            None => block_index(blocks::block_views(list@), address, 0) is None,
        },
{
    let ghost views = blocks::block_views(list@);
    proof {
        lemma_block_index(views, address, 0);
    }
    let count: usize = list.len();
    match value_at(map, address) {
        Some(k) => {
            proof {
                assert(k < count);
                let n = k as int;
                let found = block_index(views, address, 0)->0;
                if n < found {
                    assert(views[n].end <= views[found].start);
                } else if found < n {
                    assert(views[found].end <= views[n].start);
                }
            }
            Some(k as usize)
        },
        None => None,
    }
}

/// Analyses every block on its own.
fn analyze_blocks(
    insns: &Vec<Instruction>,
    list: &Vec<BasicBlock>,
    map: &RangeMap<u64, u64>,
    tracker: &mut ReferenceTracker,
    Ghost(base): Ghost<u64>,
) -> (r: Result<Vec<BlockState>, Error>)
    requires
        blocks::is_laid_out(disasm::instruction_views(insns@), base),
        are_sorted(blocks::block_views(list@)),
        numbers_blocks(
            ranges::entries(*map),
            blocks::block_views(list@),
            list@.len() as int,
        ),
    ensures
        ({
            let start = local_analysis(
                disasm::instruction_views(insns@),
                0,
                blocks::block_views(list@),
                fresh_states(list@.len()),
                old(tracker)@,
            );
            match r {
                Ok(states) => states@.len() == list@.len() && start == (
                    final(tracker)@,
                    Ok::<Seq<StateView>, Error>(state_views(states@)),
                ),
                Err(e) => start == (final(tracker)@, Err::<Seq<StateView>, Error>(e)),
            }
        }),
{
    let ghost views = disasm::instruction_views(insns@);
    let ghost block_list = blocks::block_views(list@);
    let ghost start = local_analysis(
        views,
        0,
        block_list,
        fresh_states(list@.len()),
        tracker@,
    );
    let mut states: Vec<BlockState> = Vec::new();
    let mut k: usize = 0;
    while k < list.len()
        invariant
            k <= list@.len(),
            states@.len() == k,
            forall|j: int| 0 <= j < k ==> (#[trigger] states@[j])@ == fresh_state(),
        decreases list@.len() - k,
    {
        states.push(BlockState::new());
        k = k + 1;
    }
    assert(state_views(states@) =~= fresh_states(list@.len()));
    let mut i: usize = 0;
    while i < insns.len()
        invariant
            i <= insns@.len(),
            views == disasm::instruction_views(insns@),
            block_list == blocks::block_views(list@),
            blocks::is_laid_out(views, base),
            are_sorted(block_list),
            numbers_blocks(ranges::entries(*map), block_list, list@.len() as int),
            states@.len() == list@.len(),
            start == local_analysis(
                views,
                0,
                block_list,
                fresh_states(list@.len()),
                old(tracker)@,
            ),
            start == local_analysis(
                views,
                i as int,
                block_list,
                state_views(states@),
                tracker@,
            ),
        decreases insns@.len() - i,
    {
        let instr: &Instruction = &insns[i];
        assert(views[i as int] == instr@);
        let address: u64 = instr.address;
        assert(address == base + 4 * i);
        if let Some((op, detail)) = decode(instr)? {
            let k: usize = match find_block(map, list, address) {
                Some(k) => k,
                None => {
                    return Err(Error::NoBlock { address });
                },
            };
            assert(block_list[k as int] == list@[k as int]@);
            let ghost before = state_views(states@);
            let end: u64 = list[k].end;
            match states[k].analyze(op, detail, address, end, tracker) {
                Ok(()) => {},
                Err(e) => {
                    return Err(e);
                },
            }
            assert(state_views(states@) =~= before.update(k as int, states@[k as int]@));
        }
        i = i + 1;
    }
    Ok(states)
}

/// Where page addresses are followed.
pub struct Graph {
    pub blocks: Seq<BlockView>,
    pub states: Seq<StateView>,
    /// Addresses at which another function begins, which no page address enters.
    pub function_starts: Set<u64>,
}

/// Those of `next` that do not begin another function.
pub open spec fn entered(next: Seq<u64>, function_starts: Set<u64>) -> Seq<u64> {
    next.filter(|a: u64| !function_starts.contains(a))
}

/// The kind of reference that a use turns out to be.
pub open spec fn settled_source(source_type: ReferenceSource, adrp: AdrpInfo) -> ReferenceSource {
    if adrp.is_added && source_type == ReferenceSource::LDR_STR(false) {
        ReferenceSource::LDR_STR(true)
    } else if adrp.is_added && source_type == ReferenceSource::ADD(false) {
        ReferenceSource::ADD(true)
    } else {
        source_type
    }
}

/// `refs` with those uses of `reg` resolved that stand in `potential` from the `from`-th on.
pub open spec fn uses_resolved(
    potential: Seq<PotentialRef>,
    from: int,
    reg: u16,
    adrp: AdrpInfo,
    refs: Seq<Reference>,
) -> Seq<Reference>
    decreases potential.len() - from,
{
    if from >= potential.len() {
        refs
    } else {
        let use_of = potential[from];
        uses_resolved(
            potential,
            from + 1,
            reg,
            adrp,
            if use_of.register == reg {
                resolved(
                    refs,
                    adrp,
                    use_of.offset,
                    settled_source(use_of.source_type, adrp),
                    use_of.source_offset,
                    use_of.ref_type,
                )
            } else {
                refs
            },
        )
    }
}

/// `potential` holds a use of `reg`.
pub open spec fn has_use(potential: Seq<PotentialRef>, reg: u16) -> bool {
    exists|i: int| 0 <= i < potential.len() && (#[trigger] potential[i]).register == reg
}

/// The number of addresses that are not in `visited`.
pub open spec fn unvisited(visited: Set<u64>) -> nat {
    vstd::set_lib::set_int_range(0, 0x1_0000_0000_0000_0000).filter(
        |a: int| !visited.contains(a as u64),
    ).len()
}

/// A visit leaves fewer addresses to visit.
pub proof fn lemma_visit(visited: Set<u64>, a: u64)
    requires
        !visited.contains(a),
    ensures
        unvisited(visited.insert(a)) < unvisited(visited),
{
    let all = vstd::set_lib::set_int_range(0, 0x1_0000_0000_0000_0000);
    vstd::set_lib::lemma_int_range(0, 0x1_0000_0000_0000_0000);
    let before = all.filter(|x: int| !visited.contains(x as u64));
    let after = all.filter(|x: int| !visited.insert(a).contains(x as u64));
    vstd::set_lib::lemma_set_subset_finite(all, before);
    assert(before.contains(a as int));
    assert(after =~= before.remove(a as int)) by {
        assert forall|x: int| after.contains(x) <==> before.remove(a as int).contains(x) by {
            if all.contains(x) {
                assert(x as u64 == a <==> x == a as int);
            }
        }
    }
}

/// Follows the page address `adrp` in `reg` to the blocks in `stack`, last one first, and on from
/// there, each block once. A block that overwrites the register is the last one on its way. Gives
/// the references, and whether the address is used at all.
pub open spec fn propagated(
    graph: Graph,
    reg: u16,
    adrp: AdrpInfo,
    stack: Seq<u64>,
    visited: Set<u64>,
    refs: Seq<Reference>,
    found: bool,
) -> (Seq<Reference>, Result<bool, Error>)
    decreases unvisited(visited), stack.len(),
{
    if stack.len() == 0 {
        (refs, Ok(found))
    } else {
        let address = stack.last();
        if visited.contains(address) {
            propagated(graph, reg, adrp, stack.drop_last(), visited, refs, found)
        } else {
            proof {
                lemma_visit(visited, address);
            }
            match block_index(graph.blocks, address, 0) {
                None => (refs, Err(Error::BlockNotFound { address })),
                Some(k) => propagated(
                    graph,
                    reg,
                    adrp,
                    if graph.states[k].destroyed.contains(reg) {
                        stack.drop_last()
                    } else {
                        stack.drop_last() + entered(
                            graph.blocks[k].next,
                            graph.function_starts,
                        ).reverse()
                    },
                    visited.insert(address),
                    uses_resolved(graph.states[k].potential, 0, reg, adrp, refs),
                    found || has_use(graph.states[k].potential, reg),
                ),
            }
        }
    }
}

/// Follows the page addresses at the end of the blocks, from the `j`-th one of the `k`-th block on.
pub open spec fn connected(graph: Graph, k: int, j: int, refs: Seq<Reference>) -> (
    Seq<Reference>,
    Result<(), Error>,
)
    decreases graph.blocks.len() - k, graph.states[k].adrps.len() - j,
{
    if k >= graph.blocks.len() {
        (refs, Ok(()))
    } else if j >= graph.states[k].adrps.len() {
        connected(graph, k + 1, 0, refs)
    } else {
        let (reg, adrp) = graph.states[k].adrps[j];
        let (after, outcome) = propagated(
            graph,
            reg,
            adrp,
            entered(graph.blocks[k].next, graph.function_starts).reverse(),
            Set::empty(),
            refs,
            adrp.has_been_used,
        );
        match outcome {
            Err(e) => (after, Err(e)),
            Ok(found) => if found {
                connected(graph, k, j + 1, after)
            } else {
                (after, Err(Error::UnusedAdrp { address: adrp.location }))
            },
        }
    }
}

/// Blocks as they are searched for page addresses.
struct Search<'a> {
    list: &'a Vec<BasicBlock>,
    map: &'a RangeMap<u64, u64>,
    states: &'a Vec<BlockState>,
    function_starts: &'a HashSet<u64>,
    plt_functions: &'a HashMap<u64, u64>,
}

impl<'a> Search<'a> {
    spec fn graph(&self) -> Graph {
        Graph {
            blocks: blocks::block_views(self.list@),
            states: state_views(self.states@),
            function_starts: self.function_starts@.union(self.plt_functions@.dom()),
        }
    }

    spec fn wf(&self) -> bool {
        &&& self.states@.len() == self.list@.len()
        &&& are_sorted(blocks::block_views(self.list@))
        &&& numbers_blocks(
            ranges::entries(*self.map),
            blocks::block_views(self.list@),
            self.list@.len() as int,
        )
    }

    /// Puts the blocks behind the `k`-th one on the stack, the first one on top.
    fn enter(&self, k: usize, stack: &mut Vec<u64>)
        requires
            k < self.list@.len(),
        ensures
            final(stack)@ == old(stack)@ + entered(
                self.graph().blocks[k as int].next,
                self.graph().function_starts,
            ).reverse(),
    {
        let next: &Vec<u64> = &self.list[k].next_blocks;
        let ghost starts = self.graph().function_starts;
        let ghost keep = |a: u64| !starts.contains(a);
        let ghost before = stack@;
        assert(self.graph().blocks[k as int].next == next@);
        let mut n: usize = next.len();
        assert(next@.skip(n as int) =~= Seq::<u64>::empty());
        assert(next@.skip(n as int).filter(keep) =~= Seq::<u64>::empty()) by {
            reveal(Seq::filter);
        }
        assert(before + next@.skip(n as int).filter(keep).reverse() =~= before);
        while n > 0
            invariant
                n <= next@.len(),
                starts == self.graph().function_starts,
                keep == (|a: u64| !starts.contains(a)),
                stack@ == before + next@.skip(n as int).filter(keep).reverse(),
            decreases n,
        {
            n = n - 1;
            let a: u64 = next[n];
            let ghost rest = next@.skip(n + 1);
            proof {
                lemma_filter_first(next@.skip(n as int), keep);
                assert(next@.skip(n as int).drop_first() =~= rest);
            }
            if !self.function_starts.contains(&a) && !self.plt_functions.contains_key(&a) {
                stack.push(a);
                assert(stack@ =~= before + next@.skip(n as int).filter(keep).reverse());
            }
        }
        assert(next@.skip(0) =~= next@);
    }

    fn resolve_uses(
        &self,
        k: usize,
        reg: u16,
        adrp: &AdrpInfo,
        tracker: &mut ReferenceTracker,
    ) -> (r: bool)
        requires
            k < self.states@.len(),
        ensures
            final(tracker)@ == uses_resolved(
                self.graph().states[k as int].potential,
                0,
                reg,
                *adrp,
                old(tracker)@,
            ),
            r == has_use(self.graph().states[k as int].potential, reg),
    {
        let potential: &Vec<PotentialRef> = &self.states[k].potential_refs;
        assert(self.graph().states[k as int].potential == potential@);
        let mut found = false;
        let mut i: usize = 0;
        while i < potential.len()
            invariant
                i <= potential@.len(),
                uses_resolved(potential@, 0, reg, *adrp, old(tracker)@) == uses_resolved(
                    potential@,
                    i as int,
                    reg,
                    *adrp,
                    tracker@,
                ),
                found <==> exists|j: int|
                    0 <= j < i && (#[trigger] potential@[j]).register == reg,
            decreases potential@.len() - i,
        {
            let use_of: PotentialRef = potential[i];
            if use_of.register == reg {
                let mut source_type: ReferenceSource = use_of.source_type;
                if source_type == ReferenceSource::LDR_STR(false) && adrp.is_added {
                    source_type = ReferenceSource::LDR_STR(true);
                }
                if source_type == ReferenceSource::ADD(false) && adrp.is_added {
                    source_type = ReferenceSource::ADD(true);
                }
                let target: u64 = bytes::offset_address(adrp.target, use_of.offset);
                tracker.add_reference(target, source_type, use_of.source_offset, use_of.ref_type);
                tracker.add_reference(
                    target,
                    ReferenceSource::ADRP,
                    adrp.location,
                    use_of.ref_type,
                );
                found = true;
            }
            i = i + 1;
        }
        found
    }

    /// Follows one page address from the end of the `k`-th block.
    fn propagate(&self, k: usize, reg: u16, adrp: &AdrpInfo, tracker: &mut ReferenceTracker) -> (r:
        Result<bool, Error>)
        requires
            self.wf(),
            k < self.list@.len(),
        ensures
            propagated(
                self.graph(),
                reg,
                *adrp,
                entered(
                    self.graph().blocks[k as int].next,
                    self.graph().function_starts,
                ).reverse(),
                Set::empty(),
                old(tracker)@,
                adrp.has_been_used,
            ) == (final(tracker)@, r),
    {
        let ghost graph = self.graph();
        let mut found: bool = adrp.has_been_used;
        let mut visited: HashSet<u64> = HashSet::new();
        let mut stack: Vec<u64> = Vec::new();
        self.enter(k, &mut stack);
        let ghost first = entered(graph.blocks[k as int].next, graph.function_starts).reverse();
        assert(stack@ =~= first);
        assert(visited@ =~= Set::empty());
        while stack.len() > 0
            invariant
                self.wf(),
                graph == self.graph(),
                first == entered(graph.blocks[k as int].next, graph.function_starts).reverse(),
                propagated(
                    graph,
                    reg,
                    *adrp,
                    first,
                    Set::empty(),
                    old(tracker)@,
                    adrp.has_been_used,
                ) == propagated(graph, reg, *adrp, stack@, visited@, tracker@, found),
            ensures
                stack@.len() == 0,
            decreases unvisited(visited@), stack@.len(),
        {
            let ghost full = stack@;
            let address: u64 = match stack.pop() {
                Some(address) => address,
                None => {
                    break;
                },
            };
            assert(stack@ == full.drop_last());
            if visited.contains(&address) {
                continue;
            }
            proof {
                lemma_visit(visited@, address);
            }
            let block: usize = match find_block(self.map, self.list, address) {
                Some(block) => block,
                None => {
                    return Err(Error::BlockNotFound { address });
                },
            };
            visited.insert(address);
            if self.resolve_uses(block, reg, adrp, tracker) {
                found = true;
            }
            if !self.states[block].destroyed_regs.contains(&reg) {
                self.enter(block, &mut stack);
            }
        }
        Ok(found)
    }

    /// Follows all page addresses.
    fn connect(&self, tracker: &mut ReferenceTracker) -> (r: Result<(), Error>)
        requires
            self.wf(),
        ensures
            connected(self.graph(), 0, 0, old(tracker)@) == (final(tracker)@, r),
    {
        let ghost graph = self.graph();
        let mut k: usize = 0;
        while k < self.list.len()
            invariant
                self.wf(),
                graph == self.graph(),
                k <= self.list@.len(),
                connected(graph, 0, 0, old(tracker)@) == connected(graph, k as int, 0, tracker@),
            decreases self.list@.len() - k,
        {
            let adrps: &Vec<(u16, AdrpInfo)> = &self.states[k].adrp_targets_at_end;
            assert(graph.states[k as int].adrps == adrps@);
            let mut j: usize = 0;
            while j < adrps.len()
                invariant
                    self.wf(),
                    graph == self.graph(),
                    k < self.list@.len(),
                    j <= adrps@.len(),
                    graph.states[k as int].adrps == adrps@,
                    connected(graph, 0, 0, old(tracker)@) == connected(
                        graph,
                        k as int,
                        j as int,
                        tracker@,
                    ),
                decreases adrps@.len() - j,
            {
                let (reg, adrp): (u16, AdrpInfo) = adrps[j];
                if !self.propagate(k, reg, &adrp, tracker)? {
                    return Err(Error::UnusedAdrp { address: adrp.location });
                }
                j = j + 1;
            }
            k = k + 1;
        }
        Ok(())
    }
}

/// Filtering from the front.
proof fn lemma_filter_first<A>(s: Seq<A>, keep: spec_fn(A) -> bool)
    requires
        s.len() > 0,
    ensures
        s.filter(keep) == (if keep(s[0]) {
            seq![s[0]] + s.drop_first().filter(keep)
        } else {
            s.drop_first().filter(keep)
        }),
    decreases s.len(),
{
    reveal(Seq::filter);
    if s.len() == 1 {
        assert(s.drop_first() =~= Seq::<A>::empty());
        assert(s.drop_last() =~= Seq::<A>::empty());
        assert(s.filter(keep) =~= if keep(s[0]) {
            seq![s[0]] + s.drop_first().filter(keep)
        } else {
            s.drop_first().filter(keep)
        });
    } else {
        let shorter = s.drop_last();
        lemma_filter_first(shorter, keep);
        assert(shorter.drop_first() =~= s.drop_first().drop_last());
        assert(s.drop_first().last() == s.last());
        assert(s.filter(keep) =~= if keep(s[0]) {
            seq![s[0]] + s.drop_first().filter(keep)
        } else {
            s.drop_first().filter(keep)
        });
    }
}

/// The references of the code at `base..end`: those of its branches, and those that are made of a
/// page address and an offset. Gives all references that are known afterwards.
pub open spec fn reference_search(
    insns: Seq<InstructionView>,
    base: u64,
    end: u64,
    function_starts: Set<u64>,
    refs: Seq<Reference>,
) -> (Seq<Reference>, Result<(), Error>) {
    let (branches, found) = blocks::block_search(insns, base, end, refs);
    match found {
        Err(e) => (branches, Err(e)),
        Ok(list) => {
            let (inner, analysis) = local_analysis(
                insns,
                0,
                list,
                fresh_states(list.len()),
                branches,
            );
            match analysis {
                Err(e) => (inner, Err(e)),
                Ok(states) => connected(
                    Graph { blocks: list, states, function_starts },
                    0,
                    0,
                    inner,
                ),
            }
        },
    }
}

proof fn lemma_tiling_is_sorted(list: Seq<BlockView>, cuts: Set<u64>, start: u64, end: u64)
    requires
        blocks::is_tiling(list, cuts, start, end),
    ensures
        are_sorted(list),
{
    assert forall|k: int, l: int| 0 <= k < l < list.len() implies (#[trigger] list[k]).end <= (
    #[trigger] list[l]).start by {
        lemma_tiles_ascend(list, cuts, start, end, k, l);
    }
}

proof fn lemma_tiles_ascend(
    list: Seq<BlockView>,
    cuts: Set<u64>,
    start: u64,
    end: u64,
    k: int,
    l: int,
)
    requires
        blocks::is_tiling(list, cuts, start, end),
        0 <= k < l < list.len(),
    ensures
        list[k].end <= list[l].start,
    decreases l - k,
{
    assert(list[k].end == list[k + 1].start);
    if k + 1 < l {
        assert(list[k + 1].start < list[k + 1].end);
        lemma_tiles_ascend(list, cuts, start, end, k + 1, l);
    }
}

/// Finds the references of the code at `base..end`. Page addresses are not followed into the
/// functions that start at one of `function_starts` or are listed in `plt_functions`.
pub fn find_references(
    insns: &Vec<Instruction>,
    base: u64,
    end: u64,
    function_starts: &HashSet<u64>,
    plt_functions: &HashMap<u64, u64>,
    tracker: &mut ReferenceTracker,
) -> (r: Result<(), Error>)
    requires
        base <= end,
    ensures
        reference_search(
            disasm::instruction_views(insns@),
            base,
            end,
            function_starts@.union(plt_functions@.dom()),
            old(tracker)@,
        ) == (final(tracker)@, r),
{
    let ghost views = disasm::instruction_views(insns@);
    let list = blocks::find_blocks(insns, base, end, tracker)?;
    proof {
        blocks::law_blocks_tile_the_code(views, base);
        lemma_tiling_is_sorted(
            blocks::block_list(views, base),
            blocks::cuts(views, base),
            base,
            blocks::last_exit(views, base, views.len() as int),
        );
    }
    let map = number_blocks(&list);
    let states = analyze_blocks(insns, &list, &map, tracker, Ghost(base))?;
    let search = Search {
        list: &list,
        map: &map,
        states: &states,
        function_starts,
        plt_functions,
    };
    search.connect(tracker)
}

/// Control may go on from `a` to `b` within the function, with the page address still in `reg`.
pub open spec fn leads_to(graph: Graph, reg: u16, a: u64, b: u64) -> bool {
    match block_index(graph.blocks, a, 0) {
        Some(k) => !graph.states[k].destroyed.contains(reg) && entered(
            graph.blocks[k].next,
            graph.function_starts,
        ).contains(b),
        None => false,
    }
}

/// `way` leads from one of `starts` on, a block at a time.
pub open spec fn is_way(graph: Graph, reg: u16, starts: Seq<u64>, way: Seq<u64>) -> bool {
    &&& way.len() > 0
    &&& starts.contains(way[0])
    &&& forall|i: int, j: int|
        0 <= i && j == i + 1 && j < way.len() ==> leads_to(
            graph,
            reg,
            #[trigger] way[i],
            #[trigger] way[j],
        )
}

/// A page address in `reg` that is there at `starts` gets to `a`.
pub open spec fn is_reached(graph: Graph, reg: u16, starts: Seq<u64>, a: u64) -> bool {
    exists|way: Seq<u64>| #[trigger] is_way(graph, reg, starts, way) && way.last() == a
}

/// The block at `a` uses `reg` in its `i`-th potential reference.
pub open spec fn is_use(graph: Graph, reg: u16, a: u64, i: int) -> bool {
    match block_index(graph.blocks, a, 0) {
        Some(k) => 0 <= i < graph.states[k].potential.len() && graph.states[k].potential[i].register
            == reg,
        None => false,
    }
}

/// The reference that the `i`-th potential reference of the block at `a` turns out to be.
pub open spec fn use_reference(graph: Graph, adrp: AdrpInfo, a: u64, i: int) -> Reference {
    let use_of = graph.states[block_index(graph.blocks, a, 0)->0].potential[i];
    Reference {
        source: use_of.source_offset,
        source_type: settled_source(use_of.source_type, adrp),
        target: bytes::wrap64(adrp.target + use_of.offset),
        target_type: use_of.ref_type,
    }
}

/// The reference of the `adrp` itself that goes with it.
pub open spec fn page_reference(graph: Graph, adrp: AdrpInfo, a: u64, i: int) -> Reference {
    Reference {
        source: adrp.location,
        source_type: ReferenceSource::ADRP,
        ..use_reference(graph, adrp, a, i)
    }
}

/// `after` is `refs` with both references for every use in a block of `area`, and with nothing else.
pub open spec fn holds_uses(
    graph: Graph,
    reg: u16,
    adrp: AdrpInfo,
    area: spec_fn(u64) -> bool,
    refs: Seq<Reference>,
    after: Seq<Reference>,
) -> bool {
    &&& forall|r: Reference| #[trigger] refs.contains(r) ==> after.contains(r)
    &&& forall|a: u64, i: int|
        #![trigger is_use(graph, reg, a, i)]
        area(a) && is_use(graph, reg, a, i) ==> after.contains(use_reference(graph, adrp, a, i))
            && after.contains(page_reference(graph, adrp, a, i))
    &&& forall|r: Reference| #[trigger]
        after.contains(r) ==> refs.contains(r) || exists|a: u64, i: int|
            area(a) && #[trigger] is_use(graph, reg, a, i) && (r == use_reference(
                graph,
                adrp,
                a,
                i,
            ) || r == page_reference(graph, adrp, a, i))
}

proof fn lemma_push_contains<A>(s: Seq<A>, x: A, y: A)
    ensures
        s.push(x).contains(y) <==> s.contains(y) || y == x,
{
    let t = s.push(x);
    if s.contains(y) {
        let k = choose|k: int| 0 <= k < s.len() && s[k] == y;
        assert(t[k] == y);
    }
    assert(t[s.len() as int] == x);
    if t.contains(y) && y != x {
        let k = choose|k: int| 0 <= k < t.len() && t[k] == y;
        assert(s[k] == y);
    }
}

proof fn lemma_uses_resolved(
    graph: Graph,
    reg: u16,
    adrp: AdrpInfo,
    a: u64,
    k: int,
    from: int,
    refs: Seq<Reference>,
)
    requires
        block_index(graph.blocks, a, 0) == Some(k),
        0 <= from <= graph.states[k].potential.len(),
    ensures
        ({
            let after = uses_resolved(graph.states[k].potential, from, reg, adrp, refs);
            &&& forall|r: Reference| #[trigger] refs.contains(r) ==> after.contains(r)
            &&& forall|i: int|
                from <= i && #[trigger] is_use(graph, reg, a, i) ==> after.contains(
                    use_reference(graph, adrp, a, i),
                ) && after.contains(page_reference(graph, adrp, a, i))
            &&& forall|r: Reference| #[trigger]
                after.contains(r) ==> refs.contains(r) || exists|i: int|
                    #[trigger] is_use(graph, reg, a, i) && (r == use_reference(graph, adrp, a, i)
                        || r == page_reference(graph, adrp, a, i))
        }),
    decreases graph.states[k].potential.len() - from,
{
    let potential = graph.states[k].potential;
    if from < potential.len() {
        let use_of = potential[from];
        let next = if use_of.register == reg {
            resolved(
                refs,
                adrp,
                use_of.offset,
                settled_source(use_of.source_type, adrp),
                use_of.source_offset,
                use_of.ref_type,
            )
        } else {
            refs
        };
        lemma_uses_resolved(graph, reg, adrp, a, k, from + 1, next);
        let first = use_reference(graph, adrp, a, from);
        let second = page_reference(graph, adrp, a, from);
        if use_of.register == reg {
            assert(is_use(graph, reg, a, from));
            assert forall|r: Reference| #[trigger] next.contains(r) <==> refs.contains(r) || r == first
                || r == second by {
                lemma_push_contains(refs, first, r);
                lemma_push_contains(refs.push(first), second, r);
            }
            assert(next.contains(first) && next.contains(second));
        }
        let after = uses_resolved(potential, from, reg, adrp, refs);
        assert(after == uses_resolved(potential, from + 1, reg, adrp, next));
        assert forall|r: Reference| #[trigger] refs.contains(r) implies after.contains(r) by {
            assert(next.contains(r));
        }
        assert forall|i: int| from <= i && #[trigger] is_use(graph, reg, a, i) implies after.contains(
            use_reference(graph, adrp, a, i),
        ) && after.contains(page_reference(graph, adrp, a, i)) by {
            if i == from {
                assert(next.contains(first) && next.contains(second));
            }
        }
        assert forall|r: Reference| #[trigger] after.contains(r) implies refs.contains(r) || exists|
            i: int,
        |
            #[trigger] is_use(graph, reg, a, i) && (r == use_reference(graph, adrp, a, i) || r
                == page_reference(graph, adrp, a, i)) by {
            if next.contains(r) && !refs.contains(r) {
                assert(is_use(graph, reg, a, from));
            }
        }
    }
}

/// Following a page address has come so far: everything on the stack and everything visited is
/// reached, and whatever comes next behind a visited block is on the stack or visited.
spec fn is_frontier(
    graph: Graph,
    reg: u16,
    starts: Seq<u64>,
    stack: Seq<u64>,
    visited: Set<u64>,
) -> bool {
    &&& forall|a: u64| #[trigger] stack.contains(a) ==> is_reached(graph, reg, starts, a)
    &&& forall|a: u64| #[trigger] visited.contains(a) ==> is_reached(graph, reg, starts, a)
    &&& forall|a: u64| #[trigger] starts.contains(a) ==> stack.contains(a) || visited.contains(a)
    &&& forall|a: u64, b: u64|
        visited.contains(a) && #[trigger] leads_to(graph, reg, a, b) ==> stack.contains(b)
            || visited.contains(b)
}

proof fn lemma_reached_is_visited(
    graph: Graph,
    reg: u16,
    starts: Seq<u64>,
    visited: Set<u64>,
    way: Seq<u64>,
    n: int,
)
    requires
        is_frontier(graph, reg, starts, Seq::empty(), visited),
        is_way(graph, reg, starts, way),
        0 <= n < way.len(),
    ensures
        visited.contains(way[n]),
    decreases n,
{
    if n > 0 {
        lemma_reached_is_visited(graph, reg, starts, visited, way, n - 1);
        assert(leads_to(graph, reg, way[n - 1], way[n]));
    }
}

proof fn lemma_next_is_reached(graph: Graph, reg: u16, starts: Seq<u64>, a: u64, b: u64)
    requires
        is_reached(graph, reg, starts, a),
        leads_to(graph, reg, a, b),
    ensures
        is_reached(graph, reg, starts, b),
{
    let way = choose|way: Seq<u64>| #[trigger]
        is_way(graph, reg, starts, way) && way.last() == a;
    let longer = way.push(b);
    assert forall|i: int, j: int| 0 <= i && j == i + 1 && j < longer.len() implies leads_to(
        graph,
        reg,
        #[trigger] longer[i],
        #[trigger] longer[j],
    ) by {
        if j < way.len() {
            assert(leads_to(graph, reg, way[i], way[j]));
        }
    }
    assert(longer[0] == way[0]);
    assert(is_way(graph, reg, starts, longer) && longer.last() == b);
}

/// `found` says whether a block of `area` uses `reg`, or the address was used `before`.
spec fn tells_use(
    graph: Graph,
    reg: u16,
    area: spec_fn(u64) -> bool,
    before: bool,
    found: bool,
) -> bool {
    found <==> before || exists|a: u64, i: int| area(a) && #[trigger] is_use(graph, reg, a, i)
}

#[verifier::rlimit(50)]
proof fn lemma_propagated(
    graph: Graph,
    reg: u16,
    adrp: AdrpInfo,
    starts: Seq<u64>,
    stack: Seq<u64>,
    visited: Set<u64>,
    refs: Seq<Reference>,
    so_far: Seq<Reference>,
    found: bool,
)
    requires
        propagated(graph, reg, adrp, stack, visited, so_far, found).1 is Ok,
        is_frontier(graph, reg, starts, stack, visited),
        holds_uses(graph, reg, adrp, |a: u64| visited.contains(a), refs, so_far),
        tells_use(graph, reg, |a: u64| visited.contains(a), adrp.has_been_used, found),
    ensures
        ({
            let (after, outcome) = propagated(graph, reg, adrp, stack, visited, so_far, found);
            let area = |a: u64| is_reached(graph, reg, starts, a);
            holds_uses(graph, reg, adrp, area, refs, after) && tells_use(
                graph,
                reg,
                area,
                adrp.has_been_used,
                outcome->Ok_0,
            )
        }),
    decreases unvisited(visited), stack.len(),
{
    let was_visited = |a: u64| visited.contains(a);
    let area = |a: u64| is_reached(graph, reg, starts, a);
    if stack.len() == 0 {
        assert forall|a: u64|
            #![trigger visited.contains(a)]
            #![trigger is_reached(graph, reg, starts, a)]
            visited.contains(a) <==> is_reached(graph, reg, starts, a) by {
            if is_reached(graph, reg, starts, a) {
                let way = choose|way: Seq<u64>| #[trigger]
                    is_way(graph, reg, starts, way) && way.last() == a;
                assert(stack =~= Seq::empty());
                lemma_reached_is_visited(graph, reg, starts, visited, way, way.len() - 1);
            }
        }
        assert forall|r: Reference| #[trigger] so_far.contains(r) implies refs.contains(r) || exists|
            a: u64,
            i: int,
        |
            area(a) && #[trigger] is_use(graph, reg, a, i) && (r == use_reference(graph, adrp, a, i)
                || r == page_reference(graph, adrp, a, i)) by {
            if !refs.contains(r) {
                let (a, i) = choose|a: u64, i: int|
                    was_visited(a) && #[trigger] is_use(graph, reg, a, i) && (r == use_reference(
                        graph,
                        adrp,
                        a,
                        i,
                    ) || r == page_reference(graph, adrp, a, i));
                assert(area(a) && is_use(graph, reg, a, i));
            }
        }
    } else {
        let address = stack.last();
        let rest = stack.drop_last();
        assert(stack.contains(address));
        assert forall|a: u64| stack.contains(a) <==> rest.contains(a) || a == address by {
            assert(stack =~= rest.push(address));
            lemma_push_contains(rest, address, a);
        }
        if visited.contains(address) {
            lemma_propagated(graph, reg, adrp, starts, rest, visited, refs, so_far, found);
        } else {
            lemma_visit(visited, address);
            let k = block_index(graph.blocks, address, 0)->0;
            let now = visited.insert(address);
            let next = entered(graph.blocks[k].next, graph.function_starts);
            let grown = rest + next.reverse();
            assert forall|b: u64| grown.contains(b) <==> rest.contains(b) || next.contains(b) by {
                lemma_concat_reverse(rest, next, b);
            }
            let pending = if graph.states[k].destroyed.contains(reg) {
                rest
            } else {
                grown
            };
            assert forall|b: u64| pending.contains(b) <==> rest.contains(b) || leads_to(
                graph,
                reg,
                address,
                b,
            ) by {}
            assert forall|b: u64| #[trigger] pending.contains(b) implies is_reached(
                graph,
                reg,
                starts,
                b,
            ) by {
                if leads_to(graph, reg, address, b) {
                    lemma_next_is_reached(graph, reg, starts, address, b);
                } else {
                    assert(stack.contains(b));
                }
            }
            let after = uses_resolved(graph.states[k].potential, 0, reg, adrp, so_far);
            lemma_uses_resolved(graph, reg, adrp, address, k, 0, so_far);
            let now_visited = |a: u64| now.contains(a);
            lemma_holds_more(graph, reg, adrp, visited, address, refs, so_far, after);
            let hit = found || has_use(graph.states[k].potential, reg);
            assert(tells_use(graph, reg, now_visited, adrp.has_been_used, hit)) by {
                if has_use(graph.states[k].potential, reg) {
                    let i = choose|i: int|
                        0 <= i < graph.states[k].potential.len() && (
                        #[trigger] graph.states[k].potential[i]).register == reg;
                    assert(now_visited(address) && is_use(graph, reg, address, i));
                }
                if exists|a: u64, i: int| was_visited(a) && #[trigger] is_use(graph, reg, a, i) {
                    let (a, i) = choose|a: u64, i: int|
                        was_visited(a) && #[trigger] is_use(graph, reg, a, i);
                    assert(now_visited(a) && is_use(graph, reg, a, i));
                }
                if exists|a: u64, i: int| now_visited(a) && #[trigger] is_use(graph, reg, a, i) {
                    let (a, i) = choose|a: u64, i: int|
                        now_visited(a) && #[trigger] is_use(graph, reg, a, i);
                    if a == address {
                        assert(graph.states[k].potential[i].register == reg);
                    } else {
                        assert(was_visited(a) && is_use(graph, reg, a, i));
                    }
                }
            }
            lemma_propagated(graph, reg, adrp, starts, pending, now, refs, after, hit);
        }
    }
}

proof fn lemma_concat_reverse(s: Seq<u64>, t: Seq<u64>, b: u64)
    ensures
        (s + t.reverse()).contains(b) <==> s.contains(b) || t.contains(b),
{
    let u = s + t.reverse();
    if s.contains(b) {
        let i = choose|i: int| 0 <= i < s.len() && s[i] == b;
        assert(u[i] == b);
    }
    if t.contains(b) {
        let i = choose|i: int| 0 <= i < t.len() && t[i] == b;
        assert(u[s.len() + t.len() - 1 - i] == b);
    }
    if u.contains(b) {
        let i = choose|i: int| 0 <= i < u.len() && u[i] == b;
        if i < s.len() {
            assert(s[i] == b);
        } else {
            assert(t[t.len() - 1 - (i - s.len())] == b);
        }
    }
}

proof fn lemma_holds_more(
    graph: Graph,
    reg: u16,
    adrp: AdrpInfo,
    visited: Set<u64>,
    address: u64,
    refs: Seq<Reference>,
    so_far: Seq<Reference>,
    after: Seq<Reference>,
)
    requires
        block_index(graph.blocks, address, 0) is Some,
        holds_uses(graph, reg, adrp, |a: u64| visited.contains(a), refs, so_far),
        forall|r: Reference| #[trigger] so_far.contains(r) ==> after.contains(r),
        forall|i: int| #[trigger]
            is_use(graph, reg, address, i) ==> after.contains(
                use_reference(graph, adrp, address, i),
            ) && after.contains(page_reference(graph, adrp, address, i)),
        forall|r: Reference| #[trigger]
            after.contains(r) ==> so_far.contains(r) || exists|i: int|
                #[trigger] is_use(graph, reg, address, i) && (r == use_reference(
                    graph,
                    adrp,
                    address,
                    i,
                ) || r == page_reference(graph, adrp, address, i)),
    ensures
        holds_uses(graph, reg, adrp, |a: u64| visited.insert(address).contains(a), refs, after),
{
    let was_visited = |a: u64| visited.contains(a);
    let now_visited = |a: u64| visited.insert(address).contains(a);
    assert forall|r: Reference| #[trigger] after.contains(r) implies refs.contains(r) || exists|
        a: u64,
        i: int,
    |
        now_visited(a) && #[trigger] is_use(graph, reg, a, i) && (r == use_reference(
            graph,
            adrp,
            a,
            i,
        ) || r == page_reference(graph, adrp, a, i)) by {
        if so_far.contains(r) {
            if !refs.contains(r) {
                let (a, i) = choose|a: u64, i: int|
                    was_visited(a) && #[trigger] is_use(graph, reg, a, i) && (r == use_reference(
                        graph,
                        adrp,
                        a,
                        i,
                    ) || r == page_reference(graph, adrp, a, i));
                assert(now_visited(a) && is_use(graph, reg, a, i));
            }
        } else {
            let i = choose|i: int|
                #[trigger] is_use(graph, reg, address, i) && (r == use_reference(
                    graph,
                    adrp,
                    address,
                    i,
                ) || r == page_reference(graph, adrp, address, i));
            assert(now_visited(address) && is_use(graph, reg, address, i));
        }
    }
    assert forall|a: u64, i: int|
        #![trigger is_use(graph, reg, a, i)]
        now_visited(a) && is_use(graph, reg, a, i) implies after.contains(
        use_reference(graph, adrp, a, i),
    ) && after.contains(page_reference(graph, adrp, a, i)) by {
        if a != address {
            assert(was_visited(a));
        }
    }
}

/// A page address is followed exactly to the blocks that control reaches with the address still in
/// its register, never into another function. All uses in those blocks are resolved, nothing else
/// is, and the address counts as used exactly if it was used in its own block or in one of those.
pub proof fn law_page_addresses_reach_their_uses(
    graph: Graph,
    reg: u16,
    adrp: AdrpInfo,
    starts: Seq<u64>,
    refs: Seq<Reference>,
)
    requires
        propagated(
            graph,
            reg,
            adrp,
            starts.reverse(),
            Set::empty(),
            refs,
            adrp.has_been_used,
        ).1 is Ok,
    ensures
        ({
            let (after, outcome) = propagated(
                graph,
                reg,
                adrp,
                starts.reverse(),
                Set::empty(),
                refs,
                adrp.has_been_used,
            );
            let area = |a: u64| is_reached(graph, reg, starts, a);
            &&& holds_uses(graph, reg, adrp, area, refs, after)
            &&& outcome == Ok::<bool, Error>(true) <==> adrp.has_been_used || exists|
                a: u64,
                i: int,
            |
                area(a) && #[trigger] is_use(graph, reg, a, i)
        }),
{
    let stack = starts.reverse();
    let visited = Set::<u64>::empty();
    assert forall|a: u64| stack.contains(a) <==> starts.contains(a) by {
        lemma_concat_reverse(Seq::empty(), starts, a);
        assert(Seq::<u64>::empty() + stack =~= stack);
    }
    assert forall|a: u64| #[trigger] stack.contains(a) implies is_reached(
        graph,
        reg,
        starts,
        a,
    ) by {
        assert(starts.contains(a));
        let way = seq![a];
        assert(is_way(graph, reg, starts, way) && way.last() == a);
    }
    assert(is_frontier(graph, reg, starts, stack, visited));
    lemma_propagated(
        graph,
        reg,
        adrp,
        starts,
        stack,
        visited,
        refs,
        refs,
        adrp.has_been_used,
    );
}

proof fn lemma_handled_keeps(
    op: Opcode,
    detail: DetailView,
    address: u64,
    block_end: u64,
    state: StateView,
    refs: Seq<Reference>,
)
    ensures
        reference_tracker::continues(
            handled(op, detail, address, block_end, state, refs).0,
            refs,
        ),
{
}

proof fn lemma_local_analysis_keeps(
    insns: Seq<InstructionView>,
    from: int,
    blocks: Seq<BlockView>,
    states: Seq<StateView>,
    refs: Seq<Reference>,
)
    ensures
        reference_tracker::continues(local_analysis(insns, from, blocks, states, refs).0, refs),
    decreases insns.len() - from,
{
    if from < insns.len() {
        match blocks::decoded(insns[from]) {
            Err(_) => {},
            Ok(None) => {
                lemma_local_analysis_keeps(insns, from + 1, blocks, states, refs);
            },
            Ok(Some((op, detail))) => {
                let address = insns[from].address;
                if let Some(k) = block_index(blocks, address, 0) {
                    lemma_handled_keeps(op, detail, address, blocks[k].end, states[k], refs);
                    let (found, outcome) = analyzed(
                        op,
                        detail,
                        address,
                        blocks[k].end,
                        states[k],
                        refs,
                    );
                    if let Ok(state) = outcome {
                        lemma_local_analysis_keeps(
                            insns,
                            from + 1,
                            blocks,
                            states.update(k, state),
                            found,
                        );
                    }
                }
            },
        }
    }
}

proof fn lemma_uses_resolved_keeps(
    potential: Seq<PotentialRef>,
    from: int,
    reg: u16,
    adrp: AdrpInfo,
    refs: Seq<Reference>,
)
    ensures
        reference_tracker::continues(uses_resolved(potential, from, reg, adrp, refs), refs),
    decreases potential.len() - from,
{
    if from < potential.len() {
        let use_of = potential[from];
        let next = if use_of.register == reg {
            resolved(
                refs,
                adrp,
                use_of.offset,
                settled_source(use_of.source_type, adrp),
                use_of.source_offset,
                use_of.ref_type,
            )
        } else {
            refs
        };
        lemma_uses_resolved_keeps(potential, from + 1, reg, adrp, next);
    }
}

proof fn lemma_propagated_keeps(
    graph: Graph,
    reg: u16,
    adrp: AdrpInfo,
    stack: Seq<u64>,
    visited: Set<u64>,
    refs: Seq<Reference>,
    found: bool,
)
    ensures
        reference_tracker::continues(
            propagated(graph, reg, adrp, stack, visited, refs, found).0,
            refs,
        ),
    decreases unvisited(visited), stack.len(),
{
    if stack.len() > 0 {
        let address = stack.last();
        if visited.contains(address) {
            lemma_propagated_keeps(graph, reg, adrp, stack.drop_last(), visited, refs, found);
        } else {
            lemma_visit(visited, address);
            if let Some(k) = block_index(graph.blocks, address, 0) {
                let potential = graph.states[k].potential;
                lemma_uses_resolved_keeps(potential, 0, reg, adrp, refs);
                lemma_propagated_keeps(
                    graph,
                    reg,
                    adrp,
                    if graph.states[k].destroyed.contains(reg) {
                        stack.drop_last()
                    } else {
                        stack.drop_last() + entered(
                            graph.blocks[k].next,
                            graph.function_starts,
                        ).reverse()
                    },
                    visited.insert(address),
                    uses_resolved(potential, 0, reg, adrp, refs),
                    found || has_use(potential, reg),
                );
            }
        }
    }
}

proof fn lemma_connected_keeps(graph: Graph, k: int, j: int, refs: Seq<Reference>)
    ensures
        reference_tracker::continues(connected(graph, k, j, refs).0, refs),
    decreases graph.blocks.len() - k, graph.states[k].adrps.len() - j,
{
    if k < graph.blocks.len() {
        if j >= graph.states[k].adrps.len() {
            lemma_connected_keeps(graph, k + 1, 0, refs);
        } else {
            let (reg, adrp) = graph.states[k].adrps[j];
            let stack = entered(graph.blocks[k].next, graph.function_starts).reverse();
            lemma_propagated_keeps(
                graph,
                reg,
                adrp,
                stack,
                Set::empty(),
                refs,
                adrp.has_been_used,
            );
            let (after, outcome) = propagated(
                graph,
                reg,
                adrp,
                stack,
                Set::empty(),
                refs,
                adrp.has_been_used,
            );
            if outcome == Ok::<bool, Error>(true) {
                lemma_connected_keeps(graph, k, j + 1, after);
            }
        }
    }
}

/// The search for the references of code keeps those that are known.
pub proof fn lemma_reference_search_keeps(
    insns: Seq<InstructionView>,
    base: u64,
    end: u64,
    function_starts: Set<u64>,
    refs: Seq<Reference>,
)
    ensures
        reference_tracker::continues(
            reference_search(insns, base, end, function_starts, refs).0,
            refs,
        ),
{
    blocks::lemma_block_search_keeps(insns, base, end, refs);
    let (branches, found) = blocks::block_search(insns, base, end, refs);
    if let Ok(list) = found {
        let start = fresh_states(list.len());
        lemma_local_analysis_keeps(insns, 0, list, start, branches);
        let (inner, analysis) = local_analysis(insns, 0, list, start, branches);
        if let Ok(states) = analysis {
            lemma_connected_keeps(Graph { blocks: list, states, function_starts }, 0, 0, inner);
        }
    }
}

/// The sum of an address and a distance, which wraps around.
pub open spec fn is_sum(target: u64, address: u64, distance: int) -> bool {
    target == address + distance || target == address + distance + 0x1_0000_0000_0000_0000 || target
        == address + distance - 0x1_0000_0000_0000_0000
}

/// The first page address that is in `reg` is the `k`-th one of the list.
pub open spec fn is_in_register(adrps: Seq<(u16, AdrpInfo)>, reg: u16, k: int) -> bool {
    0 <= k < adrps.len() && adrps[k].0 == reg && forall|j: int|
        0 <= j < k ==> (#[trigger] adrps[j]).0 != reg
}

proof fn lemma_found_in_register(adrps: Seq<(u16, AdrpInfo)>, reg: u16, from: int)
    requires
        0 <= from <= adrps.len(),
        forall|j: int| 0 <= j < from ==> (#[trigger] adrps[j]).0 != reg,
    ensures
        match adrp_index(adrps, reg, from) {
            Some(k) => is_in_register(adrps, reg, k),
            None => forall|j: int| 0 <= j < adrps.len() ==> (#[trigger] adrps[j]).0 != reg,
        },
    decreases adrps.len() - from,
{
    if from < adrps.len() && adrps[from].0 != reg {
        lemma_found_in_register(adrps, reg, from + 1);
    }
}

/// `found` is `refs` with a reference from an instruction to the sum of a page address and an offset,
/// and one from the `adrp` to the same place.
pub open spec fn refers_twice(
    refs: Seq<Reference>,
    found: Seq<Reference>,
    adrp: AdrpInfo,
    offset: int,
    address: u64,
    kind: ReferenceSource,
    data_type: DataRefType,
) -> bool {
    &&& found.len() == refs.len() + 2
    &&& reference_tracker::continues(found, refs)
    &&& found[refs.len() as int].source == address
    &&& found[refs.len() as int].source_type == kind
    &&& found[refs.len() as int].target_type == data_type
    &&& is_sum(found[refs.len() as int].target, adrp.target, offset)
    &&& found[refs.len() as int + 1].source == adrp.location
    &&& found[refs.len() as int + 1].source_type == ReferenceSource::ADRP
    &&& found[refs.len() as int + 1].target_type == data_type
    &&& found[refs.len() as int + 1].target == found[refs.len() as int].target
}

/// What becomes of an instruction that adds `offset` to the register `base`: it refers to the sum
/// where a page address is in the register. Where the register has not been written in the block, it
/// is kept for those that come from before. Otherwise it is of no account.
pub open spec fn is_offset_use(
    state: StateView,
    refs: Seq<Reference>,
    after: StateView,
    found: Seq<Reference>,
    base: u16,
    offset: int,
    address: u64,
    is_add: bool,
    data_type: DataRefType,
) -> bool {
    &&& forall|k: int| #[trigger]
        is_in_register(state.adrps, base, k) ==> refers_twice(
            refs,
            found,
            state.adrps[k].1,
            offset,
            address,
            if is_add {
                ReferenceSource::ADD(state.adrps[k].1.has_been_used)
            } else {
                ReferenceSource::LDR_STR(state.adrps[k].1.has_been_used)
            },
            data_type,
        ) && after.potential == state.potential
    &&& (forall|k: int| 0 <= k < state.adrps.len() ==> (#[trigger] state.adrps[k]).0 != base)
        ==> found == refs && if state.destroyed.contains(base) {
        after.potential == state.potential
    } else {
        after.potential == state.potential.push(
            PotentialRef {
                register: base,
                offset: offset as i64,
                source_type: if is_add {
                    ReferenceSource::ADD(false)
                } else {
                    ReferenceSource::LDR_STR(false)
                },
                source_offset: address,
                ref_type: data_type,
            },
        )
    }
}

/// An `adrp` puts the page address that is its second operand into the register that is its first one,
/// in place of what was there. It refers to nothing by itself.
pub proof fn law_adrp_loads_a_page_address(
    detail: DetailView,
    address: u64,
    block_end: u64,
    state: StateView,
    refs: Seq<Reference>,
)
    ensures
        ({
            let (found, outcome) = analyzed(
                opcode::opcode("adrp"@),
                detail,
                address,
                block_end,
                state,
                refs,
            );
            &&& found == refs
            &&& outcome is Ok <==> detail.operands.len() >= 2 && detail.operands[0] is Reg
                && detail.operands[1] is Imm
            &&& outcome is Ok ==> exists|k: int| #[trigger]
                is_in_register(outcome->Ok_0.adrps, detail.operands[0]->Reg_0, k)
                    && blocks::is_address(
                    outcome->Ok_0.adrps[k].1.target,
                    detail.operands[1]->Imm_0,
                ) && outcome->Ok_0.adrps[k].1.location == address
                    && !outcome->Ok_0.adrps[k].1.has_been_used && !outcome->Ok_0.adrps[k].1.is_added
            &&& outcome is Ok ==> outcome->Ok_0.potential == state.potential
        }),
{
    opcode::lemma_mnemonics();
    let op = opcode::opcode("adrp"@);
    let (found, outcome) = analyzed(op, detail, address, block_end, state, refs);
    if let Ok(after) = outcome {
        let reg = detail.operands[0]->Reg_0;
        let kept = state.adrps.filter(|entry: (u16, AdrpInfo)| !destroys(op, detail, entry.0));
        lemma_found_in_register(kept, reg, 0);
        match adrp_index(kept, reg, 0) {
            Some(k) => {
                assert(is_in_register(after.adrps, reg, k));
            },
            None => {
                assert(is_in_register(after.adrps, reg, kept.len() as int));
            },
        }
    }
}

/// An `add` of a number adds its third operand to the register that is its second one. One without a
/// number is of no account.
pub proof fn law_add_uses_its_second_register(
    detail: DetailView,
    address: u64,
    block_end: u64,
    state: StateView,
    refs: Seq<Reference>,
)
    ensures
        ({
            let (found, outcome) = analyzed(
                opcode::opcode("add"@),
                detail,
                address,
                block_end,
                state,
                refs,
            );
            if detail.operands.len() >= 3 && detail.operands[2] is Imm {
                &&& outcome is Ok <==> detail.operands[1] is Reg
                &&& outcome is Ok ==> is_offset_use(
                    state,
                    refs,
                    outcome->Ok_0,
                    found,
                    detail.operands[1]->Reg_0,
                    detail.operands[2]->Imm_0 as int,
                    address,
                    true,
                    DataRefType::Unknown,
                )
            } else {
                found == refs && outcome is Ok && outcome->Ok_0.potential == state.potential
            }
        }),
{
    opcode::lemma_mnemonics();
    if detail.operands.len() >= 3 && detail.operands[2] is Imm && detail.operands[1] is Reg {
        let base = detail.operands[1]->Reg_0;
        lemma_found_in_register(state.adrps, base, 0);
        lemma_one_in_register(state.adrps, base);
    }
}

proof fn lemma_one_in_register(adrps: Seq<(u16, AdrpInfo)>, reg: u16)
    ensures
        forall|k: int, l: int|
            #![trigger is_in_register(adrps, reg, k), is_in_register(adrps, reg, l)]
            is_in_register(adrps, reg, k) && is_in_register(adrps, reg, l) ==> k == l,
{
}

/// What a load or store of this mnemonic moves, if its register has the given name.
pub open spec fn moves(mnemonic: Seq<char>, name: Option<Seq<char>>) -> DataRefType {
    if mnemonic == "ldrh"@ || mnemonic == "strh"@ || mnemonic == "ldrsh"@ {
        DataRefType::Int16
    } else if mnemonic == "ldrb"@ || mnemonic == "strb"@ {
        DataRefType::Int8
    } else {
        opcode::reg_type(name)->Ok_0
    }
}

/// A load or store adds the displacement of its second operand to the base register in it. It tells
/// what is there: two bytes or one byte by its mnemonic, and otherwise what its first register holds.
pub proof fn law_accesses_use_their_base_register(
    mnemonic: Seq<char>,
    detail: DetailView,
    address: u64,
    block_end: u64,
    state: StateView,
    refs: Seq<Reference>,
)
    requires
        mnemonic == "ldr"@ || mnemonic == "str"@ || mnemonic == "ldrh"@ || mnemonic == "strh"@
            || mnemonic == "ldrsh"@ || mnemonic == "ldrb"@ || mnemonic == "strb"@,
    ensures
        ({
            let (found, outcome) = analyzed(
                opcode::opcode(mnemonic),
                detail,
                address,
                block_end,
                state,
                refs,
            );
            &&& outcome is Ok ==> detail.operands.len() >= 2 && detail.operands[0] is Reg
                && detail.operands[1] is Mem && is_offset_use(
                state,
                refs,
                outcome->Ok_0,
                found,
                detail.operands[1]->Mem_0,
                detail.operands[1]->Mem_2 as int,
                address,
                false,
                moves(mnemonic, detail.operands[0]->Reg_1),
            )
            &&& outcome is Ok <==> detail.operands.len() >= 2 && detail.operands[0] is Reg
                && detail.operands[1] is Mem && opcode::reg_type(detail.operands[0]->Reg_1) is Ok && (
            mnemonic == "ldr"@ || mnemonic == "str"@ || opcode::reg_type(
                detail.operands[0]->Reg_1,
            )->Ok_0 == DataRefType::Int32 || opcode::reg_type(detail.operands[0]->Reg_1)->Ok_0
                == DataRefType::Int64)
        }),
{
    opcode::lemma_mnemonics();
    reveal_strlit("ldr");
    reveal_strlit("str");
    reveal_strlit("ldrh");
    reveal_strlit("strh");
    reveal_strlit("ldrsh");
    reveal_strlit("ldrb");
    reveal_strlit("strb");
    if detail.operands.len() >= 2 && detail.operands[1] is Mem {
        let base = detail.operands[1]->Mem_0;
        lemma_found_in_register(state.adrps, base, 0);
        lemma_one_in_register(state.adrps, base);
    }
}

/// What an instruction writes does not hold a page address any more, and what it does not write keeps
/// it. A call writes X0 to X17 as well, but no other register.
pub proof fn law_written_registers_lose_page_addresses(
    op: Opcode,
    detail: DetailView,
    state: StateView,
    reg: u16,
    info: AdrpInfo,
)
    ensures
        ({
            let after = written(state, op, detail, None);
            let is_written = (exists|k: int|
                0 <= k < detail.regs_write.len() && opcode::widened(#[trigger] detail.regs_write[k])
                    == Some(reg)) || ((op == Opcode::Bl || op == Opcode::Blr) && 218 <= reg <= 235);
            &&& after.adrps.contains((reg, info)) <==> state.adrps.contains((reg, info))
                && !is_written
            &&& after.destroyed.contains(reg) <==> state.destroyed.contains(reg) || is_written
        }),
{
    let keep = |entry: (u16, AdrpInfo)| !destroys(op, detail, entry.0);
    broadcast use vstd::seq_lib::group_filter_ensures;
    let kept = state.adrps.filter(keep);
    if kept.contains((reg, info)) {
        let k = kept.index_of((reg, info));
        assert(keep(kept[k]));
        state.adrps.lemma_filter_contains_rev(keep, (reg, info));
    }
    if state.adrps.contains((reg, info)) && keep((reg, info)) {
        let k = state.adrps.index_of((reg, info));
        assert(kept.contains(state.adrps[k]));
    }
}

/// A branch has to be the last instruction of its block, and an `adr` cannot be handled.
pub proof fn law_branches_are_last(
    op: Opcode,
    detail: DetailView,
    address: u64,
    block_end: u64,
    state: StateView,
    refs: Seq<Reference>,
)
    requires
        address + 4 <= u64::MAX,
    ensures
        op == Opcode::B || op == Opcode::Br || op == Opcode::Ret || op == Opcode::TestBranch || op
            == Opcode::CompareBranch || op == Opcode::ConditionalBranch ==> (analyzed(
            op,
            detail,
            address,
            block_end,
            state,
            refs,
        ).1 is Ok <==> address + 4 == block_end),
        op == Opcode::Adr ==> analyzed(op, detail, address, block_end, state, refs).1 is Err,
{
}

/// A use through a page address that an `add` has changed counts as a second one.
pub proof fn law_uses_of_sums_are_uncertain(kind: ReferenceSource, adrp: AdrpInfo)
    ensures
        !adrp.is_added ==> settled_source(kind, adrp) == kind,
        adrp.is_added && kind == ReferenceSource::ADD(false) ==> settled_source(kind, adrp)
            == ReferenceSource::ADD(true),
        adrp.is_added && kind == ReferenceSource::LDR_STR(false) ==> settled_source(kind, adrp)
            == ReferenceSource::LDR_STR(true),
        settled_source(settled_source(kind, adrp), adrp) == settled_source(kind, adrp),
{
}

} // verus!
