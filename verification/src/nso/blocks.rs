//! Basic blocks: where control flow enters and leaves a stretch of code.

use rangemap::RangeMap;
use vstd::prelude::*;

use crate::error::Error;
use crate::nso::disasm::{self, Detail, DetailView, Instruction, InstructionView};
use crate::nso::opcode::{self, get_operand_imm, opcode_of, Opcode};
use crate::ranges::{self, all_runs, has_gap, insert_range, new_range_map, run_at};
use crate::reference_tracker::{
    self, DataRefType, Reference, ReferenceSource, ReferenceTracker,
};

verus! {

/// Number of the group of jumps in `capstone::arch::arm64::Arm64InsnGroup`.
pub const GROUP_JUMP: u8 = 1;

/// Number of the group of calls in `capstone::arch::arm64::Arm64InsnGroup`.
pub const GROUP_CALL: u8 = 2;

/// What an instruction does to the flow of control.
pub struct Flow {
    /// The code that it refers to.
    pub reference: Option<Reference>,
    /// Where control goes on, if the instruction ends its block.
    pub exits: Option<Seq<u64>>,
}

/// A reference to code.
pub open spec fn code_reference(source: u64, source_type: ReferenceSource, target: u64) -> Reference {
    Reference { source, source_type, target, target_type: DataRefType::Code }
}

/// The address behind the instruction at `address`.
pub open spec fn behind(address: u64) -> u64 {
    (address + 4) as u64
}

/// A branch that is either taken or not: its target is the operand at `idx`.
pub open spec fn conditional_flow(address: u64, detail: DetailView, idx: int) -> Result<
    Flow,
    Error,
> {
    match opcode::operand_imm(detail, idx) {
        Ok(target) => Ok(
            Flow {
                reference: Some(
                    code_reference(address, ReferenceSource::B_conditional, target),
                ),
                exits: Some(seq![target, behind(address)]),
            },
        ),
        Err(e) => Err(e),
    }
}

/// No jump and no call, except for those that are known by their mnemonic.
pub open spec fn plain_check(address: u64, detail: DetailView) -> Result<(), Error> {
    if detail.groups.contains(GROUP_JUMP) {
        Err(Error::UnhandledJump { address })
    } else if detail.groups.contains(GROUP_CALL) {
        Err(Error::UnhandledCall { address })
    } else {
        Ok(())
    }
}

/// The opcode of an instruction and its details, or `None` where it is data.
pub open spec fn decoded(i: InstructionView) -> Result<Option<(Opcode, DetailView)>, Error> {
    match i.mnemonic {
        None => Err(Error::NoMnemonic { address: i.address }),
        Some(mnemonic) => if opcode::opcode(mnemonic) == Opcode::Byte {
            Ok(None)
        } else {
            match i.detail {
                None => Err(Error::NoDetail { address: i.address }),
                Some(detail) => Ok(Some((opcode::opcode(mnemonic), detail))),
            }
        },
    }
}

/// What an instruction does to the flow of control.
pub open spec fn flow(i: InstructionView) -> Result<Flow, Error> {
    match decoded(i) {
        Err(e) => Err(e),
        Ok(None) => Ok(Flow { reference: None, exits: None }),
        Ok(Some((op, detail))) => match op {
            Opcode::Blr => Ok(Flow { reference: None, exits: None }),
            Opcode::Br | Opcode::Ret => Ok(
                Flow { reference: None, exits: Some(Seq::<u64>::empty()) },
            ),
            Opcode::Bl => match opcode::operand_imm(detail, 0) {
                Ok(target) => Ok(
                    Flow {
                        reference: Some(code_reference(i.address, ReferenceSource::BL, target)),
                        exits: None,
                    },
                ),
                Err(e) => Err(e),
            },
            Opcode::B => match opcode::operand_imm(detail, 0) {
                Ok(target) => Ok(
                    Flow {
                        reference: Some(
                            code_reference(i.address, ReferenceSource::B_tail, target),
                        ),
                        exits: Some(seq![target]),
                    },
                ),
                Err(e) => Err(e),
            },
            Opcode::TestBranch => conditional_flow(i.address, detail, 2),
            Opcode::CompareBranch => conditional_flow(i.address, detail, 1),
            Opcode::ConditionalBranch => conditional_flow(i.address, detail, 0),
            _ => match plain_check(i.address, detail) {
                Ok(()) => Ok(Flow { reference: None, exits: None }),
                Err(e) => Err(e),
            },
        },
    }
}

/// Finds out what an instruction is.
pub fn decode(i: &Instruction) -> (r: Result<Option<(Opcode, &Detail)>, Error>)
    ensures
        match r {
            Ok(None) => decoded(i@) == Ok::<Option<(Opcode, DetailView)>, Error>(None),
            Ok(Some((op, detail))) => decoded(i@) == Ok::<Option<(Opcode, DetailView)>, Error>(
                Some((op, detail@)),
            ) && op != Opcode::Byte,
            Err(e) => decoded(i@) == Err::<Option<(Opcode, DetailView)>, Error>(e),
        },
{
    let op: Opcode = match &i.mnemonic {
        Some(mnemonic) => opcode_of(mnemonic.as_str()),
        None => {
            return Err(Error::NoMnemonic { address: i.address });
        },
    };
    if op == Opcode::Byte {
        return Ok(None);
    }
    match &i.detail {
        Some(detail) => Ok(Some((op, detail))),
        None => Err(Error::NoDetail { address: i.address }),
    }
}

fn contains_group(groups: &Vec<u8>, group: u8) -> (r: bool)
    ensures
        r == groups@.contains(group),
{
    let mut i: usize = 0;
    while i < groups.len()
        invariant
            i <= groups@.len(),
            forall|k: int| 0 <= k < i ==> groups@[k] != group,
        decreases groups@.len() - i,
    {
        if groups[i] == group {
            return true;
        }
        i = i + 1;
    }
    false
}

/// Refuses jumps and calls that are not known by their mnemonic.
pub fn check_plain(address: u64, detail: &Detail) -> (r: Result<(), Error>)
    ensures
        r == plain_check(address, detail@),
{
    if contains_group(&detail.groups, GROUP_JUMP) {
        return Err(Error::UnhandledJump { address });
    }
    if contains_group(&detail.groups, GROUP_CALL) {
        return Err(Error::UnhandledCall { address });
    }
    Ok(())
}

/// The target that an instruction refers to and, where it ends its block, the ways out of it.
struct Exits {
    reference: Option<Reference>,
    exits: Option<Vec<u64>>,
}

impl View for Exits {
    type V = Flow;

    closed spec fn view(&self) -> Flow {
        Flow {
            reference: self.reference,
            exits: match self.exits {
                Some(exits) => Some(exits@),
                None => None,
            },
        }
    }
}

fn find_conditional_flow(address: u64, detail: &Detail, idx: usize) -> (r: Result<Exits, Error>)
    requires
        address + 4 <= u64::MAX,
    ensures
        match r {
            Ok(exits) => conditional_flow(address, detail@, idx as int) == Ok::<Flow, Error>(
                exits@,
            ),
            Err(e) => conditional_flow(address, detail@, idx as int) == Err::<Flow, Error>(e),
        },
{
    let target: u64 = get_operand_imm(detail, idx)?;
    let reference = Reference {
        source: address,
        source_type: ReferenceSource::B_conditional,
        target,
        target_type: DataRefType::Code,
    };
    let exits: Vec<u64> = vec![target, address + 4];
    assert(exits@ =~= seq![target, behind(address)]);
    Ok(Exits { reference: Some(reference), exits: Some(exits) })
}

fn find_flow(i: &Instruction) -> (r: Result<Exits, Error>)
    requires
        i.address + 4 <= u64::MAX,
    ensures
        match r {
            Ok(exits) => flow(i@) == Ok::<Flow, Error>(exits@),
            Err(e) => flow(i@) == Err::<Flow, Error>(e),
        },
{
    let (op, detail) = match decode(i)? {
        Some(decoded) => decoded,
        None => {
            return Ok(Exits { reference: None, exits: None });
        },
    };
    match op {
        Opcode::Blr => Ok(Exits { reference: None, exits: None }),
        Opcode::Br | Opcode::Ret => {
            let exits: Vec<u64> = Vec::new();
            assert(exits@ =~= Seq::<u64>::empty());
            Ok(Exits { reference: None, exits: Some(exits) })
        },
        Opcode::Bl => {
            let target: u64 = get_operand_imm(detail, 0)?;
            let reference = Reference {
                source: i.address,
                source_type: ReferenceSource::BL,
                target,
                target_type: DataRefType::Code,
            };
            Ok(Exits { reference: Some(reference), exits: None })
        },
        Opcode::B => {
            let target: u64 = get_operand_imm(detail, 0)?;
            let reference = Reference {
                source: i.address,
                source_type: ReferenceSource::B_tail,
                target,
                target_type: DataRefType::Code,
            };
            let exits: Vec<u64> = vec![target];
            assert(exits@ =~= seq![target]);
            Ok(Exits { reference: Some(reference), exits: Some(exits) })
        },
        Opcode::TestBranch => find_conditional_flow(i.address, detail, 2),
        Opcode::CompareBranch => find_conditional_flow(i.address, detail, 1),
        Opcode::ConditionalBranch => find_conditional_flow(i.address, detail, 0),
        _ => {
            check_plain(i.address, detail)?;
            Ok(Exits { reference: None, exits: None })
        },
    }
}

/// The instructions follow each other from `base` on.
pub open spec fn is_laid_out(insns: Seq<InstructionView>, base: u64) -> bool {
    &&& base + 4 * insns.len() <= u64::MAX
    &&& forall|i: int| 0 <= i < insns.len() ==> (#[trigger] insns[i]).address == base + 4 * i
}

/// `refs` with the code references of the instructions from the `from`-th on, up to the first one
/// that cannot be handled.
pub open spec fn flow_references(
    insns: Seq<InstructionView>,
    from: int,
    refs: Seq<Reference>,
) -> (Seq<Reference>, Result<(), Error>)
    decreases insns.len() - from,
{
    if from >= insns.len() {
        (refs, Ok(()))
    } else {
        match flow(insns[from]) {
            Err(e) => (refs, Err(e)),
            Ok(f) => flow_references(
                insns,
                from + 1,
                match f.reference {
                    Some(r) => refs.push(r),
                    None => refs,
                },
            ),
        }
    }
}

/// The ways out of the block that the `i`-th instruction ends, if it ends one.
pub open spec fn exits_of(insns: Seq<InstructionView>, i: int) -> Option<Seq<u64>> {
    match flow(insns[i]) {
        Ok(f) => f.exits,
        Err(_) => None,
    }
}

/// The ways out of the block that ends at `end` with a branch, if one does.
pub open spec fn exit_at(insns: Seq<InstructionView>, base: u64, end: u64) -> Option<Seq<u64>> {
    if base < end <= base + 4 * insns.len() && (end - base) % 4 == 0 {
        exits_of(insns, (end - base) / 4 - 1)
    } else {
        None
    }
}

/// The ways out of all blocks that end with a branch among the first `n` instructions.
pub open spec fn exit_lists(insns: Seq<InstructionView>, n: int) -> Seq<Seq<u64>>
    decreases n,
{
    if n <= 0 {
        Seq::empty()
    } else {
        match exits_of(insns, n - 1) {
            Some(exits) => exit_lists(insns, n - 1).push(exits),
            None => exit_lists(insns, n - 1),
        }
    }
}

/// `lists` holds `a` somewhere.
pub open spec fn is_listed(lists: Seq<Seq<u64>>, a: u64) -> bool {
    exists|k: int, j: int|
        0 <= k < lists.len() && 0 <= j < lists[k].len() && #[trigger] lists[k][j] == a
}

/// Where blocks are cut: behind the branches that end them, and at the targets of those.
pub open spec fn cuts(insns: Seq<InstructionView>, base: u64) -> Set<u64> {
    Set::new(
        |a: u64|
            exit_at(insns, base, a) is Some || is_listed(
                exit_lists(insns, insns.len() as int),
                a,
            ),
    )
}

/// The end of the last block that ends with a branch among the first `n` instructions.
pub open spec fn last_exit(insns: Seq<InstructionView>, base: u64, n: int) -> u64
    decreases n,
{
    if n <= 0 {
        base
    } else if exits_of(insns, n - 1) is Some {
        (base + 4 * n) as u64
    } else {
        last_exit(insns, base, n - 1)
    }
}

/// The first cut behind `a`, or `end` where there is none before it.
pub open spec fn next_cut(cuts: Set<u64>, a: u64, end: u64) -> u64
    decreases end - a,
{
    if a + 1 >= end {
        end
    } else if cuts.contains((a + 1) as u64) {
        (a + 1) as u64
    } else {
        next_cut(cuts, (a + 1) as u64, end)
    }
}

/// Where control goes on behind a block that ends at `end`: the ways out of the branch there, or
/// just the next block.
pub open spec fn followers(insns: Seq<InstructionView>, base: u64, end: u64) -> Seq<u64> {
    match exit_at(insns, base, end) {
        Some(exits) => exits,
        None => seq![end],
    }
}

/// What a [`BasicBlock`] says.
pub struct BlockView {
    pub start: u64,
    pub end: u64,
    pub next: Seq<u64>,
}

/// The blocks of `start..end`, each from one cut to the next.
pub open spec fn blocks_from(
    insns: Seq<InstructionView>,
    base: u64,
    start: u64,
    end: u64,
) -> Seq<BlockView>
    decreases end - start,
{
    let cut = next_cut(cuts(insns, base), start, end);
    if start >= end || cut <= start || cut > end {
        Seq::empty()
    } else {
        seq![BlockView { start, end: cut, next: followers(insns, base, cut) }] + blocks_from(
            insns,
            base,
            cut,
            end,
        )
    }
}

/// The basic blocks of the instructions, lowest first.
pub open spec fn block_list(insns: Seq<InstructionView>, base: u64) -> Seq<BlockView> {
    blocks_from(insns, base, base, last_exit(insns, base, insns.len() as int))
}

/// A stretch of code that control enters only at its start and leaves only at its end.
#[derive(Debug)]
pub struct BasicBlock {
    pub start: u64,
    pub end: u64,
    pub next_blocks: Vec<u64>,
}

impl View for BasicBlock {
    type V = BlockView;

    open spec fn view(&self) -> BlockView {
        BlockView { start: self.start, end: self.end, next: self.next_blocks@ }
    }
}

/// Every block by its view.
pub open spec fn block_views(blocks: Seq<BasicBlock>) -> Seq<BlockView> {
    blocks.map_values(|b: BasicBlock| b@)
}

/// Checks that instructions follow each other from `base` on.
pub fn check_layout(insns: &Vec<Instruction>, base: u64) -> (r: Result<(), Error>)
    ensures
        r == (if is_laid_out(disasm::instruction_views(insns@), base) {
            Ok(())
        } else {
            Err(Error::MisplacedInstruction)
        }),
{
    let ghost views = disasm::instruction_views(insns@);
    assert(views.len() == insns@.len());
    if insns.len() as u64 > (u64::MAX - base) / 4 {
        return Err(Error::MisplacedInstruction);
    }
    let mut i: usize = 0;
    while i < insns.len()
        invariant
            i <= insns@.len(),
            views == disasm::instruction_views(insns@),
            base + 4 * insns@.len() <= u64::MAX,
            forall|k: int| 0 <= k < i ==> (#[trigger] views[k]).address == base + 4 * k,
        decreases insns@.len() - i,
    {
        assert(views[i as int] == insns@[i as int]@);
        if insns[i].address != base + 4 * i as u64 {
            return Err(Error::MisplacedInstruction);
        }
        i = i + 1;
    }
    Ok(())
}

/// The lists by their views.
spec fn lists(nexts: Seq<Vec<u64>>) -> Seq<Seq<u64>> {
    nexts.map_values(|next: Vec<u64>| next@)
}

/// `m` cuts the addresses of `base..end` at `cuts` into blocks, and `nexts` holds where control
/// goes on behind each.
spec fn is_partition(
    insns: Seq<InstructionView>,
    base: u64,
    end: u64,
    cuts: Set<u64>,
    m: Map<u64, u64>,
    nexts: Seq<Seq<u64>>,
) -> bool {
    &&& forall|a: u64| #[trigger] m.contains_key(a) <==> base <= a < end
    &&& forall|a: u64| #[trigger] m.contains_key(a) ==> m[a] < nexts.len()
    &&& forall|b: u64|
        base < b < end ==> (m[(b - 1) as u64] == m[b] <==> !#[trigger] cuts.contains(b))
    &&& forall|b: u64|
        base < b < end && #[trigger] cuts.contains(b) ==> nexts[m[(b - 1) as u64] as int]
            == followers(insns, base, b)
    &&& base < end ==> nexts[m[(end - 1) as u64] as int] == followers(insns, base, end)
}

/// The cuts behind branches.
spec fn branch_ends(insns: Seq<InstructionView>, base: u64) -> Set<u64> {
    Set::new(|a: u64| exit_at(insns, base, a) is Some)
}

/// One more block at the end.
proof fn lemma_block_added(
    insns: Seq<InstructionView>,
    base: u64,
    end: u64,
    new_end: u64,
    m: Map<u64, u64>,
    nexts: Seq<Seq<u64>>,
    exits: Seq<u64>,
)
    requires
        base <= end < new_end,
        end == base || exit_at(insns, base, end) is Some,
        exit_at(insns, base, new_end) == Some(exits),
        forall|b: u64| end < b < new_end ==> exit_at(insns, base, b) is None,
        nexts.len() <= u64::MAX,
        is_partition(insns, base, end, branch_ends(insns, base), m, nexts),
    ensures
        is_partition(
            insns,
            base,
            new_end,
            branch_ends(insns, base),
            ranges::with_range(m, end, new_end, nexts.len() as u64),
            nexts.push(exits),
        ),
{
    let cuts = branch_ends(insns, base);
    let after = ranges::with_range(m, end, new_end, nexts.len() as u64);
    let lists = nexts.push(exits);
    assert forall|b: u64| base < b < new_end implies (after[(b - 1) as u64] == after[b]
        <==> !#[trigger] cuts.contains(b)) by {
        let a = (b - 1) as u64;
        if b < end {
            assert(m.contains_key(a) && m.contains_key(b));
        } else if b == end {
            assert(m.contains_key(a));
        }
    }
    assert forall|b: u64|
        base < b < new_end && #[trigger] cuts.contains(b) implies lists[after[(b - 1) as u64] as int]
        == followers(insns, base, b) by {
        let a = (b - 1) as u64;
        assert(b <= end);
        assert(m.contains_key(a));
    }
}

/// A block cut in two at `cut`.
proof fn lemma_block_split(
    insns: Seq<InstructionView>,
    base: u64,
    end: u64,
    cuts: Set<u64>,
    m: Map<u64, u64>,
    nexts: Seq<Seq<u64>>,
    run: (u64, u64, u64),
    cut: u64,
)
    requires
        nexts.len() <= u64::MAX,
        forall|b: u64| exit_at(insns, base, b) is Some ==> #[trigger] cuts.contains(b),
        is_partition(insns, base, end, cuts, m, nexts),
        ranges::is_run(m, run.0, run.1, run.2),
        run.0 < cut < run.1,
    ensures
        is_partition(
            insns,
            base,
            end,
            cuts.insert(cut),
            ranges::with_range(m, run.0, cut, nexts.len() as u64),
            nexts.push(seq![cut]),
        ),
{
    let after = ranges::with_range(m, run.0, cut, nexts.len() as u64);
    let all = cuts.insert(cut);
    let lists = nexts.push(seq![cut]);
    let before_end = (run.1 - 1) as u64;
    assert(m.contains_key(run.0) && m.contains_key(before_end));
    assert(m.contains_key(cut) && m.contains_key((cut - 1) as u64));
    assert(!cuts.contains(cut));
    assert forall|b: u64| base < b < end implies (after[(b - 1) as u64] == after[b]
        <==> !#[trigger] all.contains(b)) by {
        let a = (b - 1) as u64;
        assert(m.contains_key(a) && m.contains_key(b));
        assert(m[a] == m[b] <==> !cuts.contains(b));
        if run.0 < b < cut {
            assert(m[a] == run.2 && m[b] == run.2);
        }
    }
    assert forall|b: u64|
        base < b < end && #[trigger] all.contains(b) implies lists[after[(b - 1) as u64] as int]
        == followers(insns, base, b) by {
        let a = (b - 1) as u64;
        assert(m.contains_key(a));
        if b != cut {
            assert(cuts.contains(b));
            if run.0 < b < cut {
                assert(m.contains_key(b));
            }
        }
    }
    assert(m.contains_key((end - 1) as u64));
}

/// A cut inside the partition that is one already.
proof fn lemma_same_partition(
    insns: Seq<InstructionView>,
    base: u64,
    end: u64,
    cuts: Set<u64>,
    m: Map<u64, u64>,
    nexts: Seq<Seq<u64>>,
    cut: u64,
)
    requires
        is_partition(insns, base, end, cuts, m, nexts),
        cut <= base || cut >= end || cuts.contains(cut),
    ensures
        is_partition(insns, base, end, cuts.insert(cut), m, nexts),
{
    let all = cuts.insert(cut);
    assert forall|b: u64| base < b < end implies (m[(b - 1) as u64] == m[b]
        <==> !#[trigger] all.contains(b)) by {
        assert(all.contains(b) == cuts.contains(b));
    }
    assert forall|b: u64|
        base < b < end && #[trigger] all.contains(b) implies nexts[m[(b - 1) as u64] as int]
        == followers(insns, base, b) by {
        assert(cuts.contains(b));
    }
}

proof fn lemma_next_cut(cuts: Set<u64>, a: u64, cut: u64, end: u64)
    requires
        a < cut <= end,
        cut == end || cuts.contains(cut),
        forall|b: u64| a < b < cut ==> !cuts.contains(b),
    ensures
        next_cut(cuts, a, end) == cut,
    decreases cut - a,
{
    if a + 1 < cut {
        lemma_next_cut(cuts, (a + 1) as u64, cut, end);
    }
}

/// The runs of a partition follow each other without gaps.
proof fn lemma_runs_touch(m: Map<u64, u64>, base: u64, end: u64, list: Seq<(u64, u64, u64)>, i: int)
    requires
        forall|a: u64| #[trigger] m.contains_key(a) <==> base <= a < end,
        ranges::are_runs(m, list),
        forall|a: u64| #[trigger] m.contains_key(a) ==> ranges::covers(list, a),
        -1 <= i < list.len(),
        base < end,
    ensures
        i + 1 < list.len() ==> list[i + 1].0 == (if i < 0 { base } else { list[i].1 }),
        i + 1 == list.len() ==> i >= 0 && list[i].1 == end,
{
    let next = if i < 0 {
        base
    } else {
        list[i].1
    };
    if i >= 0 {
        assert(m.contains_key((list[i].1 - 1) as u64));
    }
    if i + 1 < list.len() {
        assert(m.contains_key(list[i + 1].0));
        if i >= 0 {
            assert(list[i].1 <= list[i + 1].0);
        }
    }
    if next < end {
        assert(m.contains_key(next));
        let j = choose|j: int| 0 <= j < list.len() && (#[trigger] list[j]).0 <= next < list[j].1;
        if i >= 0 && j < i {
            assert(list[j].1 <= list[i].0);
        }
        assert(j > i);
        if i + 1 < j {
            assert(list[i + 1].1 <= list[j].0);
            assert(list[i + 1].0 < list[i + 1].1);
        }
    }
}

/// The `i`-th run as a block.
spec fn run_block(list: Seq<(u64, u64, u64)>, nexts: Seq<Seq<u64>>, i: int) -> BlockView {
    BlockView { start: list[i].0, end: list[i].1, next: nexts[list[i].2 as int] }
}

/// The runs of a partition from the `k`-th on are blocks.
proof fn lemma_runs_are_blocks(
    insns: Seq<InstructionView>,
    base: u64,
    end: u64,
    m: Map<u64, u64>,
    nexts: Seq<Seq<u64>>,
    list: Seq<(u64, u64, u64)>,
    k: int,
)
    requires
        base < end,
        is_partition(insns, base, end, cuts(insns, base), m, nexts),
        ranges::are_runs(m, list),
        forall|a: u64| #[trigger] m.contains_key(a) ==> ranges::covers(list, a),
        0 <= k <= list.len(),
    ensures
        blocks_from(
            insns,
            base,
            if k < list.len() {
                list[k].0
            } else {
                end
            },
            end,
        ) == Seq::new((list.len() - k) as nat, |i: int| run_block(list, nexts, k + i)),
    decreases list.len() - k,
{
    let blocks = Seq::new((list.len() - k) as nat, |i: int| run_block(list, nexts, k + i));
    if k < list.len() {
        let start = list[k].0;
        let cut = list[k].1;
        let all = cuts(insns, base);
        lemma_runs_touch(m, base, end, list, k);
        lemma_runs_are_blocks(insns, base, end, m, nexts, list, k + 1);
        assert(ranges::is_run(m, list[k].0, list[k].1, list[k].2));
        assert(m.contains_key(start) && m.contains_key((cut - 1) as u64));
        assert forall|b: u64| start < b < cut implies !all.contains(b) by {
            assert(m.contains_key(b) && m.contains_key((b - 1) as u64));
        }
        if cut < end {
            assert(m.contains_key(cut));
            assert(all.contains(cut));
        }
        lemma_next_cut(all, start, cut, end);
        let rest = Seq::new((list.len() - k - 1) as nat, |i: int| run_block(list, nexts, k + 1 + i));
        assert(blocks =~= seq![run_block(list, nexts, k)] + rest);
    } else {
        assert(blocks =~= Seq::empty());
    }
}

/// `lists` holds `a` before its `j`-th entry in the `i`-th list.
spec fn is_listed_before(lists: Seq<Seq<u64>>, i: int, j: int, a: u64) -> bool {
    exists|k: int, l: int|
        0 <= k < lists.len() && 0 <= l < lists[k].len() && (k < i || (k == i && l < j))
            && #[trigger] lists[k][l] == a
}

/// Finds the blocks that end with a branch. Gives the number of the block of each address, the
/// ways out of each block, and the end of the last one.
fn find_branches(insns: &Vec<Instruction>, base: u64, tracker: &mut ReferenceTracker) -> (r: Result<
    (RangeMap<u64, u64>, Vec<Vec<u64>>, u64),
    Error,
>)
    requires
        is_laid_out(disasm::instruction_views(insns@), base),
    ensures
        ({
            let views = disasm::instruction_views(insns@);
            match r {
                Ok((map, nexts, end)) => {
                    &&& flow_references(views, 0, old(tracker)@) == (
                        final(tracker)@,
                        Ok::<(), Error>(()),
                    )
                    &&& end == last_exit(views, base, views.len() as int)
                    &&& base <= end
                    &&& lists(nexts@) == exit_lists(views, views.len() as int)
                    &&& is_partition(
                        views,
                        base,
                        end,
                        branch_ends(views, base),
                        ranges::entries(map),
                        lists(nexts@),
                    )
                },
                Err(e) => flow_references(views, 0, old(tracker)@) == (
                    final(tracker)@,
                    Err::<(), Error>(e),
                ),
            }
        }),
{
    let ghost views = disasm::instruction_views(insns@);
    let ghost ends = branch_ends(views, base);
    let mut map = new_range_map();
    let mut nexts: Vec<Vec<u64>> = Vec::new();
    let mut end: u64 = base;
    let mut i: usize = 0;
    assert(lists(nexts@) =~= exit_lists(views, 0));
    while i < insns.len()
        invariant
            i <= insns@.len(),
            views == disasm::instruction_views(insns@),
            ends == branch_ends(views, base),
            is_laid_out(views, base),
            flow_references(views, 0, old(tracker)@) == flow_references(
                views,
                i as int,
                tracker@,
            ),
            end == last_exit(views, base, i as int),
            base <= end <= base + 4 * i,
            end == base || exit_at(views, base, end) is Some,
            forall|b: u64| end < b <= base + 4 * i ==> exit_at(views, base, b) is None,
            lists(nexts@) == exit_lists(views, i as int),
            is_partition(views, base, end, ends, ranges::entries(map), lists(nexts@)),
        decreases insns@.len() - i,
    {
        let instr: &Instruction = &insns[i];
        assert(views[i as int] == instr@);
        let found = find_flow(instr)?;
        if let Some(reference) = found.reference {
            tracker.add_reference(
                reference.target,
                reference.source_type,
                reference.source,
                reference.target_type,
            );
        }
        let ghost behind_this = behind(instr.address);
        assert(behind_this == base + 4 * (i + 1));
        assert((behind_this - base) / 4 - 1 == i as int);
        assert(exit_at(views, base, behind_this) == exits_of(views, i as int));
        match found.exits {
            Some(exits) => {
                let new_end: u64 = instr.address + 4;
                let id: u64 = nexts.len() as u64;
                proof {
                    lemma_block_added(
                        views,
                        base,
                        end,
                        new_end,
                        ranges::entries(map),
                        lists(nexts@),
                        exits@,
                    );
                }
                insert_range(&mut map, end, new_end, id);
                let ghost before = lists(nexts@);
                nexts.push(exits);
                assert(lists(nexts@) =~= before.push(exits@));
                end = new_end;
            },
            None => {},
        }
        i = i + 1;
    }
    Ok((map, nexts, end))
}

/// Cuts blocks in two where a branch leads into them.
fn split_blocks(
    map: &mut RangeMap<u64, u64>,
    nexts: &mut Vec<Vec<u64>>,
    Ghost(views): Ghost<Seq<InstructionView>>,
    Ghost(base): Ghost<u64>,
    Ghost(end): Ghost<u64>,
)
    requires
        base <= end,
        lists(old(nexts)@) == exit_lists(views, views.len() as int),
        is_partition(
            views,
            base,
            end,
            branch_ends(views, base),
            ranges::entries(*old(map)),
            lists(old(nexts)@),
        ),
    ensures
        is_partition(
            views,
            base,
            end,
            cuts(views, base),
            ranges::entries(*final(map)),
            lists(final(nexts)@),
        ),
{
    let ghost targets = lists(nexts@);
    let ghost mut done = branch_ends(views, base);
    let count: usize = nexts.len();
    let mut i: usize = 0;
    while i < count
        invariant
            base <= end,
            count == targets.len(),
            i <= count <= nexts@.len(),
            forall|k: int| 0 <= k < count ==> lists(nexts@)[k] == #[trigger] targets[k],
            forall|b: u64| exit_at(views, base, b) is Some ==> #[trigger] done.contains(b),
            forall|a: u64| #[trigger]
                done.contains(a) <==> exit_at(views, base, a) is Some || is_listed_before(
                    targets,
                    i as int,
                    0,
                    a,
                ),
            is_partition(views, base, end, done, ranges::entries(*map), lists(nexts@)),
        decreases count - i,
    {
        let mut j: usize = 0;
        while j < nexts[i].len()
            invariant
                base <= end,
                count == targets.len(),
                i < count <= nexts@.len(),
                j <= nexts@[i as int]@.len(),
                forall|k: int| 0 <= k < count ==> lists(nexts@)[k] == #[trigger] targets[k],
                forall|b: u64| exit_at(views, base, b) is Some ==> #[trigger] done.contains(b),
                forall|a: u64| #[trigger]
                    done.contains(a) <==> exit_at(views, base, a) is Some || is_listed_before(
                        targets,
                        i as int,
                        j as int,
                        a,
                    ),
                is_partition(views, base, end, done, ranges::entries(*map), lists(nexts@)),
            decreases nexts@[i as int]@.len() - j,
        {
            let next: u64 = nexts[i][j];
            assert(targets[i as int] == nexts@[i as int]@);
            assert(targets[i as int][j as int] == next);
            let ghost m = ranges::entries(*map);
            let ghost before = lists(nexts@);
            let ghost known = done;
            proof {
                done = done.insert(next);
            }
            match run_at(map, next) {
                Some(run) => {
                    if run.0 != next {
                        let id: u64 = nexts.len() as u64;
                        proof {
                            lemma_block_split(views, base, end, known, m, before, run, next);
                        }
                        insert_range(map, run.0, next, id);
                        let single: Vec<u64> = vec![next];
                        assert(single@ =~= seq![next]);
                        nexts.push(single);
                        assert(lists(nexts@) =~= before.push(seq![next]));
                    } else {
                        proof {
                            assert(m.contains_key(next));
                            if base < next {
                                assert(m.contains_key((next - 1) as u64));
                                assert(known.contains(next));
                            }
                            lemma_same_partition(views, base, end, known, m, before, next);
                        }
                    }
                },
                None => {
                    proof {
                        lemma_same_partition(views, base, end, known, m, before, next);
                    }
                },
            }
            assert forall|a: u64| #[trigger] done.contains(a) <==> exit_at(views, base, a) is Some
                || is_listed_before(targets, i as int, j + 1, a) by {
                if is_listed_before(targets, i as int, j as int, a) {
                    let (k, l) = choose|k: int, l: int|
                        0 <= k < targets.len() && 0 <= l < targets[k].len() && (k < i || (k == i && l
                            < j)) && #[trigger] targets[k][l] == a;
                    assert(targets[k][l] == a);
                }
                if is_listed_before(targets, i as int, j + 1, a) && a != next {
                    let (k, l) = choose|k: int, l: int|
                        0 <= k < targets.len() && 0 <= l < targets[k].len() && (k < i || (k == i && l
                            < j + 1)) && #[trigger] targets[k][l] == a;
                    assert(targets[k][l] == a);
                    assert(is_listed_before(targets, i as int, j as int, a));
                }
                assert(known.contains(a) <==> exit_at(views, base, a) is Some || is_listed_before(
                    targets,
                    i as int,
                    j as int,
                    a,
                ));
            }
            j = j + 1;
        }
        assert forall|a: u64| is_listed_before(targets, i + 1, 0, a) == is_listed_before(
            targets,
            i as int,
            j as int,
            a,
        ) by {
            assert(targets[i as int] == nexts@[i as int]@);
            if is_listed_before(targets, i + 1, 0, a) {
                let (k, l) = choose|k: int, l: int|
                    0 <= k < targets.len() && 0 <= l < targets[k].len() && (k < i + 1 || (k == i + 1
                        && l < 0)) && #[trigger] targets[k][l] == a;
                assert(targets[k][l] == a);
            }
            if is_listed_before(targets, i as int, j as int, a) {
                let (k, l) = choose|k: int, l: int|
                    0 <= k < targets.len() && 0 <= l < targets[k].len() && (k < i || (k == i && l
                        < j)) && #[trigger] targets[k][l] == a;
                assert(targets[k][l] == a);
            }
        }
        i = i + 1;
    }
    assert(done =~= cuts(views, base)) by {
        assert forall|a: u64| is_listed_before(targets, i as int, 0, a) == is_listed(targets, a) by {
            if is_listed(targets, a) {
                let (k, l) = choose|k: int, l: int|
                    0 <= k < targets.len() && 0 <= l < targets[k].len() && #[trigger] targets[k][l]
                        == a;
                assert(targets[k][l] == a);
            }
            if is_listed_before(targets, i as int, 0, a) {
                let (k, l) = choose|k: int, l: int|
                    0 <= k < targets.len() && 0 <= l < targets[k].len() && (k < i || (k == i && l
                        < 0)) && #[trigger] targets[k][l] == a;
                assert(targets[k][l] == a);
            }
        }
    }
}

/// The search for the blocks of `base..end`: the references that are known afterwards, and the
/// blocks, lowest first.
pub open spec fn block_search(
    insns: Seq<InstructionView>,
    base: u64,
    end: u64,
    refs: Seq<Reference>,
) -> (Seq<Reference>, Result<Seq<BlockView>, Error>) {
    if !is_laid_out(insns, base) {
        (refs, Err(Error::MisplacedInstruction))
    } else {
        let (found, outcome) = flow_references(insns, 0, refs);
        match outcome {
            Err(e) => (found, Err(e)),
            Ok(()) => if last_exit(insns, base, insns.len() as int) < end {
                (found, Err(Error::GapsBetweenBlocks))
            } else {
                (found, Ok(block_list(insns, base)))
            },
        }
    }
}

/// Finds the basic blocks of the code at `base..end` and the references of its branches.
pub fn find_blocks(
    insns: &Vec<Instruction>,
    base: u64,
    end: u64,
    tracker: &mut ReferenceTracker,
) -> (r: Result<Vec<BasicBlock>, Error>)
    requires
        base <= end,
    ensures
        ({
            let views = disasm::instruction_views(insns@);
            match r {
                Ok(blocks) => block_search(views, base, end, old(tracker)@) == (
                    final(tracker)@,
                    Ok::<Seq<BlockView>, Error>(block_views(blocks@)),
                ),
                Err(e) => block_search(views, base, end, old(tracker)@) == (
                    final(tracker)@,
                    Err::<Seq<BlockView>, Error>(e),
                ),
            }
        }),
{
    let ghost views = disasm::instruction_views(insns@);
    check_layout(insns, base)?;
    let (mut map, mut nexts, last) = find_branches(insns, base, tracker)?;
    split_blocks(&mut map, &mut nexts, Ghost(views), Ghost(base), Ghost(last));
    let ghost m = ranges::entries(map);
    if base < end && has_gap(&map, base, end) {
        assert(last < end);
        return Err(Error::GapsBetweenBlocks);
    }
    proof {
        if last < end {
            assert(!m.contains_key(last));
        }
    }
    let runs = all_runs(&map);
    let mut blocks: Vec<BasicBlock> = Vec::new();
    let mut i: usize = 0;
    while i < runs.len()
        invariant
            i <= runs@.len(),
            blocks@.len() == i,
            ranges::are_runs(m, runs@),
            is_partition(views, base, last, cuts(views, base), m, lists(nexts@)),
            forall|k: int|
                0 <= k < i ==> (#[trigger] blocks@[k])@ == run_block(runs@, lists(nexts@), k),
        decreases runs@.len() - i,
    {
        let run: (u64, u64, u64) = runs[i];
        assert(ranges::is_run(m, runs@[i as int].0, runs@[i as int].1, runs@[i as int].2));
        assert(m.contains_key(run.0));
        let next_blocks: Vec<u64> = nexts[run.2 as usize].clone();
        assert(next_blocks@ =~= lists(nexts@)[run.2 as int]);
        blocks.push(BasicBlock { start: run.0, end: run.1, next_blocks });
        i = i + 1;
    }
    proof {
        if base < last {
            lemma_runs_touch(m, base, last, runs@, -1);
            lemma_runs_are_blocks(views, base, last, m, lists(nexts@), runs@, 0);
        } else if runs@.len() > 0 {
            assert(ranges::is_run(m, runs@[0].0, runs@[0].1, runs@[0].2));
            assert(m.contains_key(runs@[0].0));
        }
        assert(block_views(blocks@) =~= block_list(views, base));
    }
    Ok(blocks)
}

proof fn lemma_next_cut_is_first(cuts: Set<u64>, a: u64, end: u64)
    requires
        a < end,
    ensures
        a < next_cut(cuts, a, end) <= end,
        next_cut(cuts, a, end) == end || cuts.contains(next_cut(cuts, a, end)),
        forall|b: u64| a < b < next_cut(cuts, a, end) ==> !cuts.contains(b),
    decreases end - a,
{
    if a + 1 < end && !cuts.contains((a + 1) as u64) {
        lemma_next_cut_is_first(cuts, (a + 1) as u64, end);
    }
}

/// The blocks follow each other from `start` to `end`, and are cut nowhere else than between two.
pub open spec fn is_tiling(blocks: Seq<BlockView>, cuts: Set<u64>, start: u64, end: u64) -> bool {
    &&& blocks.len() == 0 <==> start == end
    &&& blocks.len() > 0 ==> blocks[0].start == start && blocks.last().end == end
    &&& forall|k: int|
        0 <= k < blocks.len() ==> (#[trigger] blocks[k]).start < blocks[k].end && (blocks[k].end
            == end || cuts.contains(blocks[k].end))
    &&& forall|k: int, l: int|
        0 <= k && l == k + 1 && l < blocks.len() ==> (#[trigger] blocks[k]).end == (
        #[trigger] blocks[l]).start
    &&& forall|k: int, a: u64|
        0 <= k < blocks.len() && (#[trigger] blocks[k]).start < a < blocks[k].end
            ==> !#[trigger] cuts.contains(a)
}

proof fn lemma_blocks_tile(insns: Seq<InstructionView>, base: u64, start: u64, end: u64)
    requires
        start <= end,
    ensures
        is_tiling(blocks_from(insns, base, start, end), cuts(insns, base), start, end),
    decreases end - start,
{
    if start < end {
        let all = cuts(insns, base);
        lemma_next_cut_is_first(all, start, end);
        let cut = next_cut(all, start, end);
        lemma_blocks_tile(insns, base, cut, end);
        let rest = blocks_from(insns, base, cut, end);
        let blocks = blocks_from(insns, base, start, end);
        let first = BlockView { start, end: cut, next: followers(insns, base, cut) };
        assert(blocks == seq![first] + rest);
        assert(blocks[0] == first);
        assert forall|k: int| 1 <= k < blocks.len() implies #[trigger] blocks[k] == rest[k - 1] by {}
        if rest.len() > 0 {
            assert(blocks.last() == rest.last());
        }
        assert forall|k: int, l: int|
            0 <= k && l == k + 1 && l < blocks.len() implies (#[trigger] blocks[k]).end == (
        #[trigger] blocks[l]).start by {
            if k > 0 {
                assert(rest[k - 1].end == rest[l - 1].start);
            }
        }
    }
}

proof fn lemma_last_exit(insns: Seq<InstructionView>, base: u64, n: int)
    requires
        0 <= n <= insns.len(),
        base + 4 * insns.len() <= u64::MAX,
    ensures
        base <= last_exit(insns, base, n) <= base + 4 * n,
    decreases n,
{
    if n > 0 {
        lemma_last_exit(insns, base, n - 1);
    }
}

/// Basic blocks follow each other without gaps from the first instruction to the last branch. They
/// are cut behind every branch that does not come back and at every target of one, and nowhere else.
pub proof fn law_blocks_tile_the_code(insns: Seq<InstructionView>, base: u64)
    requires
        is_laid_out(insns, base),
    ensures
        is_tiling(
            block_list(insns, base),
            cuts(insns, base),
            base,
            last_exit(insns, base, insns.len() as int),
        ),
{
    lemma_last_exit(insns, base, insns.len() as int);
    lemma_blocks_tile(insns, base, base, last_exit(insns, base, insns.len() as int));
}

proof fn lemma_cut_starts_block(
    insns: Seq<InstructionView>,
    base: u64,
    start: u64,
    end: u64,
    a: u64,
) -> (k: int)
    requires
        start <= a < end,
        a == start || cuts(insns, base).contains(a),
    ensures
        0 <= k < blocks_from(insns, base, start, end).len(),
        blocks_from(insns, base, start, end)[k].start == a,
    decreases end - start,
{
    let all = cuts(insns, base);
    lemma_next_cut_is_first(all, start, end);
    let cut = next_cut(all, start, end);
    if a == start {
        0
    } else {
        assert(cut <= a);
        let k = lemma_cut_starts_block(insns, base, cut, end, a);
        k + 1
    }
}

/// A branch into code that belongs to a block leads to the start of one: blocks are split there.
pub proof fn law_branch_targets_start_blocks(
    insns: Seq<InstructionView>,
    base: u64,
    i: int,
    j: int,
) -> (k: int)
    requires
        is_laid_out(insns, base),
        0 <= i < insns.len(),
        exits_of(insns, i) is Some,
        0 <= j < exits_of(insns, i)->0.len(),
        base <= exits_of(insns, i)->0[j] < last_exit(insns, base, insns.len() as int),
    ensures
        0 <= k < block_list(insns, base).len(),
        block_list(insns, base)[k].start == exits_of(insns, i)->0[j],
{
    let a = exits_of(insns, i)->0[j];
    let n = insns.len() as int;
    lemma_exits_listed(insns, n, i);
    let lists = exit_lists(insns, n);
    let l = choose|l: int| 0 <= l < lists.len() && #[trigger] lists[l] == exits_of(insns, i)->0;
    assert(lists[l][j] == a);
    assert(cuts(insns, base).contains(a));
    lemma_cut_starts_block(insns, base, base, last_exit(insns, base, n), a)
}

proof fn lemma_exits_listed(insns: Seq<InstructionView>, n: int, i: int)
    requires
        0 <= i < n <= insns.len(),
        exits_of(insns, i) is Some,
    ensures
        exists|l: int|
            0 <= l < exit_lists(insns, n).len() && #[trigger] exit_lists(insns, n)[l] == exits_of(
                insns,
                i,
            )->0,
    decreases n,
{
    let lists = exit_lists(insns, n);
    if i == n - 1 {
        assert(lists[lists.len() - 1] == exits_of(insns, i)->0);
    } else {
        lemma_exits_listed(insns, n - 1, i);
        let shorter = exit_lists(insns, n - 1);
        let l = choose|l: int|
            0 <= l < shorter.len() && #[trigger] shorter[l] == exits_of(insns, i)->0;
        assert(lists[l] == shorter[l]);
    }
}

/// The search for blocks keeps the references that are known.
pub proof fn lemma_block_search_keeps(
    insns: Seq<InstructionView>,
    base: u64,
    end: u64,
    refs: Seq<Reference>,
)
    ensures
        reference_tracker::continues(block_search(insns, base, end, refs).0, refs),
{
    lemma_flow_keeps(insns, 0, refs);
}

proof fn lemma_flow_keeps(insns: Seq<InstructionView>, from: int, refs: Seq<Reference>)
    ensures
        reference_tracker::continues(flow_references(insns, from, refs).0, refs),
    decreases insns.len() - from,
{
    if from < insns.len() {
        if let Ok(f) = flow(insns[from]) {
            let next = match f.reference {
                Some(r) => refs.push(r),
                None => refs,
            };
            lemma_flow_keeps(insns, from + 1, next);
        }
    }
}

/// The address `target` is the number `value`, where negative numbers wrap around.
pub open spec fn is_address(target: u64, value: i64) -> bool {
    target == value || target == value + 0x1_0000_0000_0000_0000
}

/// The mnemonic of a branch on a condition that the flags hold.
pub open spec fn is_flag_branch(mnemonic: Seq<char>) -> bool {
    mnemonic.len() >= 2 && mnemonic[0] == 'b' && mnemonic[1] == '.'
}

proof fn lemma_flag_branch(mnemonic: Seq<char>)
    requires
        is_flag_branch(mnemonic),
    ensures
        opcode::opcode(mnemonic) == Opcode::ConditionalBranch,
{
    opcode::lemma_mnemonics();
    reveal_strlit("b.");
    assert(mnemonic =~= "b."@ + mnemonic.skip(2));
}

/// A branch refers to the address that it jumps to, which is its last operand: the only one of `b`,
/// `bl` and branches on flags, the second one of `cbz` and `cbnz`, the third one of `tbz` and `tbnz`.
/// Control goes on there, unless it comes back, and behind the branch where it may not be taken.
pub proof fn law_branches_lead_to_their_last_operand(i: InstructionView)
    requires
        flow(i) is Ok,
    ensures
        i.mnemonic == Some("bl"@) ==> refers_to_operand(i, 0, ReferenceSource::BL) && flow(
            i,
        )->Ok_0.exits is None,
        i.mnemonic == Some("b"@) ==> refers_to_operand(i, 0, ReferenceSource::B_tail) && flow(
            i,
        )->Ok_0.exits == Some(seq![flow(i)->Ok_0.reference->0.target]),
        i.mnemonic is Some && is_flag_branch(i.mnemonic->0) ==> is_taken_or_not(i, 0),
        i.mnemonic == Some("cbz"@) || i.mnemonic == Some("cbnz"@) ==> is_taken_or_not(i, 1),
        i.mnemonic == Some("tbz"@) || i.mnemonic == Some("tbnz"@) ==> is_taken_or_not(i, 2),
{
    opcode::lemma_mnemonics();
    if let Some(m) = i.mnemonic {
        if is_flag_branch(m) {
            lemma_flag_branch(m);
        }
    }
}

/// The instruction refers to the code at the address that its operand at `idx` is.
pub open spec fn refers_to_operand(i: InstructionView, idx: int, kind: ReferenceSource) -> bool {
    let operand = i.detail->0.operands[idx];
    let r = flow(i)->Ok_0.reference->0;
    &&& i.detail is Some
    &&& idx < i.detail->0.operands.len()
    &&& operand is Imm
    &&& flow(i) is Ok
    &&& flow(i)->Ok_0.reference is Some
    &&& r.source == i.address
    &&& r.source_type == kind
    &&& is_address(r.target, operand->Imm_0)
    &&& r.target_type == DataRefType::Code
}

/// The instruction is a branch to its operand at `idx`, behind which control goes on as well.
pub open spec fn is_taken_or_not(i: InstructionView, idx: int) -> bool {
    &&& refers_to_operand(i, idx, ReferenceSource::B_conditional)
    &&& flow(i)->Ok_0.exits == Some(
        seq![flow(i)->Ok_0.reference->0.target, (i.address + 4) as u64],
    )
}

/// A return and a branch to a register refer to nothing and end their block for good. A call of a
/// register, data, and all instructions that are no branch do neither.
pub proof fn law_only_branches_end_blocks(i: InstructionView)
    requires
        flow(i) is Ok,
    ensures
        i.mnemonic == Some("ret"@) || i.mnemonic == Some("br"@) ==> flow(i)->Ok_0.reference is None
            && flow(i)->Ok_0.exits == Some(Seq::<u64>::empty()),
        i.mnemonic == Some("blr"@) || i.mnemonic == Some(".byte"@) ==> flow(i)->Ok_0.reference is None
            && flow(i)->Ok_0.exits is None,
        flow(i)->Ok_0.exits is Some ==> is_ending(i.mnemonic),
        flow(i)->Ok_0.reference is Some ==> i.mnemonic == Some("bl"@) || (is_ending(i.mnemonic)
            && i.mnemonic != Some("ret"@) && i.mnemonic != Some("br"@)),
{
    opcode::lemma_mnemonics();
    reveal_strlit("b.");
    if let Some(m) = i.mnemonic {
        if m.len() >= 2 && m.take(2) == "b."@ {
            assert(m.take(2)[0] == m[0] && m.take(2)[1] == m[1]);
        }
    }
}

/// The mnemonic of an instruction that control does not come back from.
pub open spec fn is_ending(mnemonic: Option<Seq<char>>) -> bool {
    mnemonic matches Some(m) && (m == "b"@ || m == "br"@ || m == "ret"@ || m == "cbz"@ || m
        == "cbnz"@ || m == "tbz"@ || m == "tbnz"@ || is_flag_branch(m))
}

/// An instruction that is not known by its mnemonic must neither jump nor call.
pub proof fn law_unknown_jumps_are_refused(i: InstructionView)
    requires
        i.mnemonic is Some,
        i.mnemonic->0 != ".byte"@,
        i.mnemonic->0 != "blr"@,
        i.mnemonic->0 != "bl"@,
        !is_ending(i.mnemonic),
    ensures
        flow(i) is Ok <==> i.detail is Some && !i.detail->0.groups.contains(1u8)
            && !i.detail->0.groups.contains(2u8),
{
    opcode::lemma_mnemonics();
    reveal_strlit("b.");
    let m = i.mnemonic->0;
    if m.len() >= 2 && m.take(2) == "b."@ {
        assert(m.take(2)[0] == m[0] && m.take(2)[1] == m[1]);
    }
}

proof fn lemma_flow_found(insns: Seq<InstructionView>, from: int, refs: Seq<Reference>, i: int)
    requires
        0 <= from <= i < insns.len(),
        flow_references(insns, from, refs).1 is Ok,
    ensures
        flow(insns[i]) is Ok,
        flow(insns[i])->Ok_0.reference matches Some(r) ==> flow_references(
            insns,
            from,
            refs,
        ).0.contains(r),
    decreases insns.len() - from,
{
    let next = match flow(insns[from])->Ok_0.reference {
        Some(r) => refs.push(r),
        None => refs,
    };
    if from < i {
        lemma_flow_found(insns, from + 1, next, i);
    } else if let Some(r) = flow(insns[i])->Ok_0.reference {
        lemma_flow_keeps(insns, from + 1, next);
        assert(next[refs.len() as int] == r);
        assert(flow_references(insns, from, refs).0[refs.len() as int] == r);
    }
}

proof fn lemma_flow_made(insns: Seq<InstructionView>, from: int, refs: Seq<Reference>, k: int)
    requires
        0 <= from,
        refs.len() <= k < flow_references(insns, from, refs).0.len(),
    ensures
        exists|i: int|
            from <= i < insns.len() && flow(#[trigger] insns[i]) is Ok && flow(
                insns[i],
            )->Ok_0.reference == Some(flow_references(insns, from, refs).0[k]),
    decreases insns.len() - from,
{
    if from < insns.len() {
        if let Ok(f) = flow(insns[from]) {
            let next = match f.reference {
                Some(r) => refs.push(r),
                None => refs,
            };
            lemma_flow_keeps(insns, from + 1, next);
            if k < next.len() {
                assert(flow_references(insns, from, refs).0[k] == next[k]);
                assert(flow(insns[from]) == Ok::<Flow, Error>(f));
            } else {
                lemma_flow_made(insns, from + 1, next, k);
            }
        }
    }
}

/// The references of branches are those of the single instructions: all of them are found where all
/// instructions can be handled, and no others are.
pub proof fn law_all_branches_are_found(insns: Seq<InstructionView>, refs: Seq<Reference>)
    ensures
        flow_references(insns, 0, refs).1 is Ok ==> forall|i: int|
            0 <= i < insns.len() ==> flow(#[trigger] insns[i]) is Ok && (flow(
                insns[i],
            )->Ok_0.reference matches Some(r) ==> flow_references(insns, 0, refs).0.contains(r)),
        forall|k: int|
            refs.len() <= k < flow_references(insns, 0, refs).0.len() ==> exists|i: int|
                0 <= i < insns.len() && flow(#[trigger] insns[i]) is Ok && flow(
                    insns[i],
                )->Ok_0.reference == Some(#[trigger] flow_references(insns, 0, refs).0[k]),
{
    if flow_references(insns, 0, refs).1 is Ok {
        assert forall|i: int| 0 <= i < insns.len() implies flow(#[trigger] insns[i]) is Ok && (flow(
            insns[i],
        )->Ok_0.reference matches Some(r) ==> flow_references(insns, 0, refs).0.contains(r)) by {
            lemma_flow_found(insns, 0, refs, i);
        }
    }
    assert forall|k: int|
        refs.len() <= k < flow_references(insns, 0, refs).0.len() implies exists|i: int|
        0 <= i < insns.len() && flow(#[trigger] insns[i]) is Ok && flow(insns[i])->Ok_0.reference
            == Some(#[trigger] flow_references(insns, 0, refs).0[k]) by {
        lemma_flow_made(insns, 0, refs, k);
    }
}

proof fn lemma_block_goes_on(
    insns: Seq<InstructionView>,
    base: u64,
    start: u64,
    end: u64,
    k: int,
)
    requires
        0 <= k < blocks_from(insns, base, start, end).len(),
    ensures
        blocks_from(insns, base, start, end)[k].next == followers(
            insns,
            base,
            blocks_from(insns, base, start, end)[k].end,
        ),
    decreases end - start,
{
    let cut = next_cut(cuts(insns, base), start, end);
    if k > 0 {
        lemma_block_goes_on(insns, base, cut, end, k - 1);
    }
}

/// Behind a block that ends with a branch, control goes on where the branch leads. Behind any other it
/// goes on with the block that follows.
pub proof fn law_blocks_go_on_where_they_lead(insns: Seq<InstructionView>, base: u64, k: int, i: int)
    requires
        is_laid_out(insns, base),
        0 <= k < block_list(insns, base).len(),
        0 <= i < insns.len(),
        block_list(insns, base)[k].end == base + 4 * i + 4,
    ensures
        match flow(insns[i]) {
            Ok(f) => match f.exits {
                Some(exits) => block_list(insns, base)[k].next == exits,
                None => block_list(insns, base)[k].next == seq![(base + 4 * i + 4) as u64],
            },
            Err(_) => block_list(insns, base)[k].next == seq![(base + 4 * i + 4) as u64],
        },
{
    let end = last_exit(insns, base, insns.len() as int);
    lemma_block_goes_on(insns, base, base, end, k);
    assert((base + 4 * i + 4 - base) / 4 - 1 == i);
}

/// Code is divided into blocks exactly if its instructions stand one behind the other, four bytes each,
/// all its branches can be handled, and its last instruction ends a block.
pub proof fn law_code_ends_with_a_branch(
    insns: Seq<InstructionView>,
    base: u64,
    refs: Seq<Reference>,
)
    requires
        insns.len() > 0,
        base + 4 * insns.len() <= u64::MAX,
    ensures
        ({
            let last = insns.len() - 1;
            let (found, r) = block_search(insns, base, (base + 4 * insns.len()) as u64, refs);
            let placed = forall|i: int|
                0 <= i < insns.len() ==> (#[trigger] insns[i]).address == base + 4 * i;
            &&& r is Ok <==> placed && flow_references(insns, 0, refs).1 is Ok && exits_of(
                insns,
                last,
            ) is Some
            &&& !placed ==> r == Err::<Seq<BlockView>, Error>(Error::MisplacedInstruction) && found
                == refs
            &&& placed ==> found == flow_references(insns, 0, refs).0
            &&& placed && flow_references(insns, 0, refs).1 is Ok && exits_of(insns, last) is None
                ==> r == Err::<Seq<BlockView>, Error>(Error::GapsBetweenBlocks)
        }),
{
    lemma_last_exit(insns, base, insns.len() - 1);
}

} // verus!
