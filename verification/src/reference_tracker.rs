//! References between addresses: collected one by one, then settled into lookup tables.

use std::collections::{HashMap, HashSet};
use vstd::prelude::*;

use crate::error::Error;

verus! {

/// What is found at the target of a reference. The further up, the more specific: where several
/// types are known for one target, the most specific one counts.
#[derive(Debug, Copy, Clone, PartialEq, Eq, Structural)]
pub enum DataRefType {
    /// Size in bytes.
    Object(u64),
    /// Size in bytes.
    Function(u64),
    Code,
    /// Size in entries.
    JumpTable(u64),
    Float8,
    Int8,
    Float16,
    Int16,
    Float32,
    Int32,
    Float64,
    Int64,
    Float128,
    /// The target is a symbol table entry, with this addend.
    SymbolAbsolute(i64),
    Unknown,
}

impl DataRefType {
    /// Position in the list of types.
    pub open spec fn rank(self) -> int {
        match self {
            DataRefType::Object(_) => 0,
            DataRefType::Function(_) => 1,
            DataRefType::Code => 2,
            DataRefType::JumpTable(_) => 3,
            DataRefType::Float8 => 4,
            DataRefType::Int8 => 5,
            DataRefType::Float16 => 6,
            DataRefType::Int16 => 7,
            DataRefType::Float32 => 8,
            DataRefType::Int32 => 9,
            DataRefType::Float64 => 10,
            DataRefType::Int64 => 11,
            DataRefType::Float128 => 12,
            DataRefType::SymbolAbsolute(_) => 13,
            DataRefType::Unknown => 14,
        }
    }

    /// The number that comes with the type, or 0.
    pub open spec fn payload(self) -> int {
        match self {
            DataRefType::Object(n) => n as int,
            DataRefType::Function(n) => n as int,
            DataRefType::JumpTable(n) => n as int,
            DataRefType::SymbolAbsolute(n) => n as int,
            _ => 0,
        }
    }

    /// Whether `self` is at least as specific as `other`.
    pub open spec fn at_least(self, other: DataRefType) -> bool {
        self.rank() < other.rank() || (self.rank() == other.rank() && self.payload()
            <= other.payload())
    }

    /// The more specific one of two types.
    pub open spec fn better(self, other: DataRefType) -> DataRefType {
        if self.at_least(other) {
            self
        } else {
            other
        }
    }

    fn rank_of(&self) -> (r: u8)
        ensures
            r == self.rank(),
    {
        match *self {
            DataRefType::Object(_) => 0,
            DataRefType::Function(_) => 1,
            DataRefType::Code => 2,
            DataRefType::JumpTable(_) => 3,
            DataRefType::Float8 => 4,
            DataRefType::Int8 => 5,
            DataRefType::Float16 => 6,
            DataRefType::Int16 => 7,
            DataRefType::Float32 => 8,
            DataRefType::Int32 => 9,
            DataRefType::Float64 => 10,
            DataRefType::Int64 => 11,
            DataRefType::Float128 => 12,
            DataRefType::SymbolAbsolute(_) => 13,
            DataRefType::Unknown => 14,
        }
    }

    fn payload_of(&self) -> (r: i128)
        ensures
            r == self.payload(),
    {
        match *self {
            DataRefType::Object(n) => n as i128,
            DataRefType::Function(n) => n as i128,
            DataRefType::JumpTable(n) => n as i128,
            DataRefType::SymbolAbsolute(n) => n as i128,
            _ => 0,
        }
    }

    fn choose_better(self, other: DataRefType) -> (r: DataRefType)
        ensures
            r == self.better(other),
    {
        let (a, b): (u8, u8) = (self.rank_of(), other.rank_of());
        if a < b || (a == b && self.payload_of() <= other.payload_of()) {
            self
        } else {
            other
        }
    }
}

/// Where a reference comes from.
#[derive(Debug, Copy, Clone, PartialEq, Eq, Structural)]
pub enum ReferenceSource {
    ADRP,
    /// An `add` of a page offset. Whether the page address had been used before: if so, a second
    /// such reference from the same place makes both void.
    ADD(bool),
    /// A load or store with a page offset. The flag is that of `ADD`.
    LDR_STR(bool),
    /// Function call.
    BL,
    /// Conditional branch.
    B_conditional,
    /// Tail call or local branch.
    B_tail,
    /// Symbol table entry. Whether the symbol is weak.
    Symbol(bool),
    Relocation,
    InitArray,
    /// Instructions that read a jump table.
    JumpTableUsage,
    /// Jump table entry.
    JumpTable,
    /// Known beforehand.
    Hack,
}

impl ReferenceSource {
    /// Whether two references of this kind from one place make each other void.
    pub open spec fn is_voidable(self) -> bool {
        self == ReferenceSource::LDR_STR(true) || self == ReferenceSource::ADD(true)
    }

    /// Whether references of this kind from one place may have different targets: an `adrp` is
    /// used for all that lies on its page, and all that is known beforehand has the same source.
    pub open spec fn may_differ(self) -> bool {
        self == ReferenceSource::ADRP || self == ReferenceSource::Hack
    }

    /// One of the two is a relocation and the other an entry of the init array.
    pub open spec fn is_init_pair(self, other: ReferenceSource) -> bool {
        (self == ReferenceSource::Relocation && other == ReferenceSource::InitArray) || (self
            == ReferenceSource::InitArray && other == ReferenceSource::Relocation)
    }
}

#[derive(Debug, Copy, Clone, PartialEq, Eq, Structural)]
pub struct Reference {
    pub source: u64,
    pub source_type: ReferenceSource,
    pub target: u64,
    pub target_type: DataRefType,
}

/// Two voidable references of `refs` come from `source`.
#[verifier::opaque]
pub open spec fn is_void(refs: Seq<Reference>, source: u64) -> bool {
    exists|i: int, j: int|
        0 <= i < j < refs.len() && (#[trigger] refs[i]).source == source && (
        #[trigger] refs[j]).source == source && refs[i].source_type.is_voidable()
            && refs[j].source_type.is_voidable()
}

/// The lookup tables that references are settled into.
pub struct Tables {
    /// The type of each target.
    pub types: Map<u64, DataRefType>,
    /// The different kinds of source of each target.
    pub kinds: Map<u64, Seq<ReferenceSource>>,
    /// What each source is and where it points to.
    pub sources: Map<u64, (ReferenceSource, u64)>,
}

/// `kinds` with `kind`, unless that is there already.
pub open spec fn with_kind(kinds: Seq<ReferenceSource>, kind: ReferenceSource) -> Seq<
    ReferenceSource,
> {
    if kinds.contains(kind) {
        kinds
    } else {
        kinds.push(kind)
    }
}

/// The tables after `r` has been noted as a reference to its target.
pub open spec fn target_noted(t: Tables, r: Reference) -> Tables {
    if t.types.contains_key(r.target) {
        Tables {
            types: t.types.insert(r.target, r.target_type.better(t.types[r.target])),
            kinds: t.kinds.insert(r.target, with_kind(t.kinds[r.target], r.source_type)),
            sources: t.sources,
        }
    } else {
        Tables {
            types: t.types.insert(r.target, r.target_type),
            kinds: t.kinds.insert(r.target, seq![r.source_type]),
            sources: t.sources,
        }
    }
}

/// The tables after `r` has been noted as a reference from its source, or why it cannot be.
pub open spec fn source_noted(t: Tables, r: Reference) -> Result<Tables, Error> {
    if !t.sources.contains_key(r.source) {
        Ok(Tables { sources: t.sources.insert(r.source, (r.source_type, r.target)), ..t })
    } else {
        let (known_type, known_target) = t.sources[r.source];
        if known_type.is_init_pair(r.source_type) {
            if known_target == r.target {
                Ok(
                    Tables {
                        sources: t.sources.insert(
                            r.source,
                            (ReferenceSource::InitArray, known_target),
                        ),
                        ..t
                    },
                )
            } else {
                Err(Error::InitArrayConflict { source: r.source })
            }
        } else if known_type != r.source_type {
            Err(Error::SourceTypeConflict { source: r.source })
        } else if !r.source_type.may_differ() && known_target != r.target {
            Err(Error::TargetConflict { source: r.source })
        } else {
            Ok(t)
        }
    }
}

/// The tables after `r`, one of `refs`, has been noted.
pub open spec fn noted(refs: Seq<Reference>, t: Tables, r: Reference) -> Result<Tables, Error> {
    if is_void(refs, r.source) {
        if r.source_type.is_voidable() {
            Ok(t)
        } else {
            Err(Error::VoidSource { source: r.source })
        }
    } else {
        source_noted(target_noted(t, r), r)
    }
}

/// `t` with the references from the `from`-th on.
pub open spec fn settled_from(refs: Seq<Reference>, from: int, t: Tables) -> Result<Tables, Error>
    decreases refs.len() - from,
{
    if from >= refs.len() {
        Ok(t)
    } else {
        match noted(refs, t, refs[from]) {
            Ok(next) => settled_from(refs, from + 1, next),
            Err(e) => Err(e),
        }
    }
}

pub open spec fn empty_tables() -> Tables {
    Tables { types: Map::empty(), kinds: Map::empty(), sources: Map::empty() }
}

/// The tables for `refs`.
pub open spec fn settled(refs: Seq<Reference>) -> Result<Tables, Error> {
    settled_from(refs, 0, empty_tables())
}

/// The `i`-th reference is not void.
pub open spec fn is_kept(refs: Seq<Reference>, i: int) -> bool {
    0 <= i < refs.len() && !is_void(refs, refs[i].source)
}

/// `types` holds, for the first `n` references, the most specific type of each target.
pub open spec fn has_best_types(
    refs: Seq<Reference>,
    n: int,
    types: Map<u64, DataRefType>,
) -> bool {
    &&& forall|i: int|
        #![trigger is_kept(refs, i)]
        i < n && is_kept(refs, i) ==> types.contains_key(refs[i].target)
            && types[refs[i].target].at_least(refs[i].target_type)
    &&& forall|target: u64| #[trigger]
        types.contains_key(target) ==> exists|i: int|
            i < n && #[trigger] is_kept(refs, i) && refs[i].target == target
                && refs[i].target_type == types[target]
}

/// `i` is the first of the kept references with its source.
pub open spec fn is_first_from(refs: Seq<Reference>, i: int, source: u64) -> bool {
    &&& is_kept(refs, i)
    &&& refs[i].source == source
    &&& forall|j: int| 0 <= j < i ==> (#[trigger] refs[j]).source != source
}

/// `sources` holds, for the first `n` references, the target of the first one from each source.
/// All others have that target too, unless they are of a kind that may differ.
pub open spec fn has_first_targets(
    refs: Seq<Reference>,
    n: int,
    sources: Map<u64, (ReferenceSource, u64)>,
) -> bool {
    &&& forall|i: int|
        #![trigger is_kept(refs, i)]
        i < n && is_kept(refs, i) ==> sources.contains_key(refs[i].source) && (
        !refs[i].source_type.may_differ() ==> sources[refs[i].source].1 == refs[i].target)
    &&& forall|source: u64| #[trigger]
        sources.contains_key(source) ==> exists|i: int|
            i < n && #[trigger] is_first_from(refs, i, source) && refs[i].target
                == sources[source].1
}

proof fn lemma_types_noted(refs: Seq<Reference>, n: int, t: Tables)
    requires
        0 <= n < refs.len(),
        has_best_types(refs, n, t.types),
        noted(refs, t, refs[n]) is Ok,
    ensures
        has_best_types(refs, n + 1, noted(refs, t, refs[n])->Ok_0.types),
{
    let r = refs[n];
    let after = noted(refs, t, r)->Ok_0;
    if is_void(refs, r.source) {
        assert(!is_kept(refs, n));
        assert(after == t);
    } else {
        assert(is_kept(refs, n));
        assert(after.types == target_noted(t, r).types);
        assert forall|target: u64| #[trigger] after.types.contains_key(target) implies exists|i: int|
            i < n + 1 && #[trigger] is_kept(refs, i) && refs[i].target == target
                && refs[i].target_type == after.types[target] by {
            if target == r.target && after.types[target] == r.target_type {
                assert(is_kept(refs, n));
            } else {
                assert(t.types.contains_key(target));
            }
        }
    }
}

proof fn lemma_sources_noted(refs: Seq<Reference>, n: int, t: Tables)
    requires
        0 <= n < refs.len(),
        has_first_targets(refs, n, t.sources),
        noted(refs, t, refs[n]) is Ok,
    ensures
        has_first_targets(refs, n + 1, noted(refs, t, refs[n])->Ok_0.sources),
{
    let r = refs[n];
    let after = noted(refs, t, r)->Ok_0;
    if is_void(refs, r.source) {
        assert(!is_kept(refs, n));
        assert(after == t);
    } else {
        assert(is_kept(refs, n));
        let noted_target = target_noted(t, r);
        assert(noted_target.sources == t.sources);
        assert(after == source_noted(noted_target, r)->Ok_0);
        assert forall|source: u64| #[trigger] after.sources.contains_key(source) implies exists|
            i: int,
        |
            i < n + 1 && #[trigger] is_first_from(refs, i, source) && refs[i].target
                == after.sources[source].1 by {
            if t.sources.contains_key(source) {
                let i = choose|i: int|
                    i < n && #[trigger] is_first_from(refs, i, source) && refs[i].target
                        == t.sources[source].1;
                assert(is_first_from(refs, i, source));
            } else {
                assert(source == r.source);
                assert forall|j: int| 0 <= j < n implies (#[trigger] refs[j]).source != source by {
                    if refs[j].source == source {
                        assert(is_kept(refs, j));
                    }
                }
                assert(is_first_from(refs, n, source));
            }
        }
    }
}

proof fn lemma_settled(refs: Seq<Reference>, n: int, t: Tables)
    requires
        0 <= n <= refs.len(),
        has_best_types(refs, n, t.types),
        has_first_targets(refs, n, t.sources),
        settled_from(refs, n, t) is Ok,
    ensures
        has_best_types(refs, refs.len() as int, settled_from(refs, n, t)->Ok_0.types),
        has_first_targets(refs, refs.len() as int, settled_from(refs, n, t)->Ok_0.sources),
    decreases refs.len() - n,
{
    if n < refs.len() {
        lemma_types_noted(refs, n, t);
        lemma_sources_noted(refs, n, t);
        lemma_settled(refs, n + 1, noted(refs, t, refs[n])->Ok_0);
    }
}

/// Where references can be settled, a target has a type exactly if a reference that is not void
/// points to it. The type is that of one of those references, and none of them has a more specific
/// one.
pub proof fn law_most_specific_type_wins(refs: Seq<Reference>)
    requires
        settled(refs) is Ok,
    ensures
        has_best_types(refs, refs.len() as int, settled(refs)->Ok_0.types),
{
    lemma_settled(refs, 0, empty_tables());
}

/// Where references can be settled, a source has a target exactly if a reference that is not void
/// starts there, and the target is that of the first one. Only an `adrp` and what is known
/// beforehand may have further targets.
pub proof fn law_first_target_stays(refs: Seq<Reference>)
    requires
        settled(refs) is Ok,
    ensures
        has_first_targets(refs, refs.len() as int, settled(refs)->Ok_0.sources),
{
    lemma_settled(refs, 0, empty_tables());
}

/// `after` begins with `refs`.
pub open spec fn continues(after: Seq<Reference>, refs: Seq<Reference>) -> bool {
    &&& refs.len() <= after.len()
    &&& forall|i: int| 0 <= i < refs.len() ==> #[trigger] after[i] == refs[i]
}

/// A reference that is not void and not of a kind that may differ is settled: its source points to
/// its target.
pub proof fn law_references_are_settled(refs: Seq<Reference>, i: int)
    requires
        settled(refs) is Ok,
        0 <= i < refs.len(),
        !refs[i].source_type.is_voidable(),
        !refs[i].source_type.may_differ(),
    ensures
        settled(refs)->Ok_0.sources.contains_key(refs[i].source),
        settled(refs)->Ok_0.sources[refs[i].source].1 == refs[i].target,
        settled(refs)->Ok_0.types.contains_key(refs[i].target),
        settled(refs)->Ok_0.types[refs[i].target].at_least(refs[i].target_type),
{
    lemma_settled(refs, 0, empty_tables());
    lemma_not_void(refs, 0, empty_tables(), i);
    assert(is_kept(refs, i));
}

proof fn lemma_not_void(refs: Seq<Reference>, from: int, t: Tables, i: int)
    requires
        settled_from(refs, from, t) is Ok,
        0 <= from <= i < refs.len(),
        !refs[i].source_type.is_voidable(),
    ensures
        !is_void(refs, refs[i].source),
    decreases refs.len() - from,
{
    if from < i {
        lemma_not_void(refs, from + 1, noted(refs, t, refs[from])->Ok_0, i);
    }
}

/// What is known of a source allows for `r` as well.
pub open spec fn allows(known: (ReferenceSource, u64), r: Reference) -> bool {
    if known.0.is_init_pair(r.source_type) {
        known.1 == r.target
    } else {
        known.0 == r.source_type && (r.source_type.may_differ() || known.1 == r.target)
    }
}

/// References can be settled: none from a void source is of a kind that cannot be void, and any two of
/// those that are kept allow for each other where they have the same source.
pub open spec fn can_settle(refs: Seq<Reference>) -> bool {
    &&& forall|i: int|
        0 <= i < refs.len() && is_void(refs, refs[i].source) ==> (
        #[trigger] refs[i]).source_type.is_voidable()
    &&& forall|i: int, j: int|
        #![trigger is_kept(refs, i), is_kept(refs, j)]
        is_kept(refs, i) && is_kept(refs, j) && refs[i].source == refs[j].source ==> allows(
            (refs[i].source_type, refs[i].target),
            refs[j],
        )
}

/// `sources` holds, for the first `n` references, the kind of each source, and its target unless that
/// may differ. Where a relocation and an entry of the init array have the same source, it is of the
/// latter kind.
pub open spec fn has_kinds(
    refs: Seq<Reference>,
    n: int,
    sources: Map<u64, (ReferenceSource, u64)>,
) -> bool {
    &&& forall|i: int|
        #![trigger is_kept(refs, i)]
        i < n && is_kept(refs, i) ==> sources.contains_key(refs[i].source) && allows(
            sources[refs[i].source],
            refs[i],
        ) && (sources[refs[i].source].0 == refs[i].source_type || sources[refs[i].source].0
            == ReferenceSource::InitArray)
    &&& forall|source: u64| #[trigger]
        sources.contains_key(source) ==> exists|i: int|
            i < n && #[trigger] is_kept(refs, i) && refs[i].source == source
                && refs[i].source_type == sources[source].0
}

/// `kinds` holds, for the first `n` references, the kinds of those to each target.
pub open spec fn has_all_kinds(
    refs: Seq<Reference>,
    n: int,
    kinds: Map<u64, Seq<ReferenceSource>>,
) -> bool {
    &&& forall|i: int|
        #![trigger is_kept(refs, i)]
        i < n && is_kept(refs, i) ==> kinds.contains_key(refs[i].target)
            && kinds[refs[i].target].contains(refs[i].source_type)
    &&& forall|target: u64, kind: ReferenceSource|
        kinds.contains_key(target) && #[trigger] kinds[target].contains(kind) ==> exists|i: int|
            i < n && #[trigger] is_kept(refs, i) && refs[i].target == target
                && refs[i].source_type == kind
}

proof fn lemma_kinds_noted(refs: Seq<Reference>, n: int, t: Tables)
    requires
        0 <= n < refs.len(),
        has_kinds(refs, n, t.sources),
        noted(refs, t, refs[n]) is Ok,
    ensures
        has_kinds(refs, n + 1, noted(refs, t, refs[n])->Ok_0.sources),
{
    let r = refs[n];
    let after = noted(refs, t, r)->Ok_0;
    if is_void(refs, r.source) {
        assert(!is_kept(refs, n));
        assert(after == t);
    } else {
        assert(is_kept(refs, n));
        assert forall|source: u64| #[trigger] after.sources.contains_key(source) implies exists|
            i: int,
        |
            i < n + 1 && #[trigger] is_kept(refs, i) && refs[i].source == source
                && refs[i].source_type == after.sources[source].0 by {
            if source == r.source && after.sources[source].0 == r.source_type {
                assert(is_kept(refs, n));
            } else {
                assert(t.sources.contains_key(source));
                let i = choose|i: int|
                    i < n && #[trigger] is_kept(refs, i) && refs[i].source == source
                        && refs[i].source_type == t.sources[source].0;
                assert(is_kept(refs, i));
            }
        }
    }
}

proof fn lemma_all_kinds_noted(refs: Seq<Reference>, n: int, t: Tables)
    requires
        0 <= n < refs.len(),
        t.types.dom() == t.kinds.dom(),
        has_all_kinds(refs, n, t.kinds),
        noted(refs, t, refs[n]) is Ok,
    ensures
        has_all_kinds(refs, n + 1, noted(refs, t, refs[n])->Ok_0.kinds),
        noted(refs, t, refs[n])->Ok_0.types.dom() == noted(refs, t, refs[n])->Ok_0.kinds.dom(),
{
    let r = refs[n];
    let after = noted(refs, t, r)->Ok_0;
    if is_void(refs, r.source) {
        assert(!is_kept(refs, n));
        assert(after == t);
    } else {
        assert(is_kept(refs, n));
        assert(after.kinds == target_noted(t, r).kinds);
        assert(after.types == target_noted(t, r).types);
        assert(after.types.dom() =~= after.kinds.dom());
        assert(t.types.contains_key(r.target) == t.kinds.contains_key(r.target)) by {
            assert(t.types.dom().contains(r.target) == t.kinds.dom().contains(r.target));
        }
        let before = t.kinds[r.target];
        if t.kinds.contains_key(r.target) {
            let pushed = before.push(r.source_type);
            assert(pushed[before.len() as int] == r.source_type);
            assert forall|kind: ReferenceSource| before.contains(kind) implies pushed.contains(
                kind,
            ) by {
                let k = before.index_of(kind);
                assert(pushed[k] == kind);
            }
        } else {
            assert(seq![r.source_type][0] == r.source_type);
        }
        assert forall|target: u64, kind: ReferenceSource|
            after.kinds.contains_key(target) && #[trigger] after.kinds[target].contains(
                kind,
            ) implies exists|i: int|
            i < n + 1 && #[trigger] is_kept(refs, i) && refs[i].target == target
                && refs[i].source_type == kind by {
            if target == r.target && kind == r.source_type {
                assert(is_kept(refs, n));
            } else {
                let k = after.kinds[target].index_of(kind);
                assert(after.kinds[target][k] == kind);
                assert(t.kinds.contains_key(target));
                assert(t.kinds[target][k] == kind);
                assert(t.kinds[target].contains(kind));
                let i = choose|i: int|
                    i < n && #[trigger] is_kept(refs, i) && refs[i].target == target
                        && refs[i].source_type == kind;
                assert(is_kept(refs, i));
            }
        }
    }
}

proof fn lemma_settled_kinds(refs: Seq<Reference>, n: int, t: Tables)
    requires
        0 <= n <= refs.len(),
        t.types.dom() == t.kinds.dom(),
        has_kinds(refs, n, t.sources),
        has_all_kinds(refs, n, t.kinds),
        settled_from(refs, n, t) is Ok,
    ensures
        has_kinds(refs, refs.len() as int, settled_from(refs, n, t)->Ok_0.sources),
        has_all_kinds(refs, refs.len() as int, settled_from(refs, n, t)->Ok_0.kinds),
        settled_from(refs, n, t)->Ok_0.types.dom() == settled_from(refs, n, t)->Ok_0.kinds.dom(),
    decreases refs.len() - n,
{
    if n < refs.len() {
        lemma_kinds_noted(refs, n, t);
        lemma_all_kinds_noted(refs, n, t);
        lemma_settled_kinds(refs, n + 1, noted(refs, t, refs[n])->Ok_0);
    }
}

proof fn lemma_settles(refs: Seq<Reference>, n: int, t: Tables)
    requires
        0 <= n <= refs.len(),
        has_kinds(refs, n, t.sources),
        can_settle(refs),
    ensures
        settled_from(refs, n, t) is Ok,
    decreases refs.len() - n,
{
    if n < refs.len() {
        let r = refs[n];
        if !is_void(refs, r.source) {
            assert(is_kept(refs, n));
            if t.sources.contains_key(r.source) {
                let known = t.sources[r.source];
                let i = choose|i: int|
                    i < n && #[trigger] is_kept(refs, i) && refs[i].source == r.source
                        && refs[i].source_type == known.0;
                assert(is_kept(refs, i));
                assert(allows((refs[i].source_type, refs[i].target), r));
                assert(allows(known, r));
            }
        }
        lemma_kinds_noted(refs, n, t);
        lemma_settles(refs, n + 1, noted(refs, t, r)->Ok_0);
    }
}

/// References can be settled exactly if any two of them agree, and if none of those from a void source
/// is of a kind that cannot be void.
pub proof fn law_references_that_agree_are_settled(refs: Seq<Reference>)
    ensures
        settled(refs) is Ok <==> can_settle(refs),
{
    let t = empty_tables();
    assert(t.types.dom() =~= t.kinds.dom());
    if can_settle(refs) {
        lemma_settles(refs, 0, t);
    }
    if settled(refs) is Ok {
        lemma_settled_kinds(refs, 0, t);
        assert forall|i: int|
            0 <= i < refs.len() && is_void(refs, refs[i].source) implies (
            #[trigger] refs[i]).source_type.is_voidable() by {
            if !refs[i].source_type.is_voidable() {
                lemma_not_void(refs, 0, t, i);
            }
        }
    }
}

/// Two places in `refs` hold `r`.
spec fn is_repeated(refs: Seq<Reference>, r: Reference) -> bool {
    exists|i: int, j: int|
        0 <= i < j < refs.len() && #[trigger] refs[i] == r && #[trigger] refs[j] == r
}

proof fn lemma_repeated(refs: Seq<Reference>, r: Reference)
    ensures
        is_repeated(refs, r) <==> refs.to_multiset().count(r) >= 2,
{
    refs.to_multiset_ensures();
    if is_repeated(refs, r) {
        let (i, j) = choose|i: int, j: int|
            0 <= i < j < refs.len() && #[trigger] refs[i] == r && #[trigger] refs[j] == r;
        let rest = refs.remove(i);
        rest.to_multiset_ensures();
        assert(rest[j - 1] == r);
        assert(rest.contains(r));
        assert(rest.to_multiset().count(r) > 0);
        assert(rest.to_multiset() == refs.to_multiset().remove(r));
    }
    if refs.to_multiset().count(r) >= 2 {
        assert(refs.contains(r));
        let i = choose|i: int| 0 <= i < refs.len() && refs[i] == r;
        let rest = refs.remove(i);
        rest.to_multiset_ensures();
        assert(rest.to_multiset().count(r) >= 1);
        assert(rest.contains(r));
        let k = choose|k: int| 0 <= k < rest.len() && rest[k] == r;
        if k < i {
            assert(refs[k] == r && refs[i] == r);
        } else {
            assert(refs[i] == r && refs[k + 1] == r);
        }
    }
}

proof fn lemma_found(a: Seq<Reference>, b: Seq<Reference>, i: int) -> (j: int)
    requires
        a.to_multiset() == b.to_multiset(),
        0 <= i < a.len(),
    ensures
        0 <= j < b.len(),
        b[j] == a[i],
{
    a.to_multiset_ensures();
    b.to_multiset_ensures();
    assert(a.contains(a[i]));
    assert(b.to_multiset().count(a[i]) > 0);
    assert(b.contains(a[i]));
    b.index_of(a[i])
}

proof fn lemma_stays_void(a: Seq<Reference>, b: Seq<Reference>, source: u64)
    requires
        a.to_multiset() == b.to_multiset(),
        is_void(a, source),
    ensures
        is_void(b, source),
{
    reveal(is_void);
    let (i, j) = choose|i: int, j: int|
        0 <= i < j < a.len() && (#[trigger] a[i]).source == source && (#[trigger] a[j]).source
            == source && a[i].source_type.is_voidable() && a[j].source_type.is_voidable();
    if a[i] == a[j] {
        let r = a[i];
        assert(is_repeated(a, r));
        lemma_repeated(a, r);
        lemma_repeated(b, r);
        let (k, l) = choose|k: int, l: int|
            0 <= k < l < b.len() && #[trigger] b[k] == r && #[trigger] b[l] == r;
        assert(b[k].source == source && b[l].source == source);
    } else {
        let k = lemma_found(a, b, i);
        let l = lemma_found(a, b, j);
        assert(b[k].source == source && b[l].source == source);
        if k < l {
            assert(is_void(b, source));
        } else {
            assert(l < k);
            assert(is_void(b, source));
        }
    }
}

proof fn lemma_stays_kept(a: Seq<Reference>, b: Seq<Reference>, i: int) -> (j: int)
    requires
        a.to_multiset() == b.to_multiset(),
        is_kept(a, i),
    ensures
        is_kept(b, j),
        b[j] == a[i],
{
    let j = lemma_found(a, b, i);
    if is_void(b, b[j].source) {
        lemma_stays_void(b, a, b[j].source);
    }
    j
}

proof fn lemma_still_settles(a: Seq<Reference>, b: Seq<Reference>)
    requires
        a.to_multiset() == b.to_multiset(),
        can_settle(a),
    ensures
        can_settle(b),
{
    assert forall|i: int|
        0 <= i < b.len() && is_void(b, b[i].source) implies (
        #[trigger] b[i]).source_type.is_voidable() by {
        let k = lemma_found(b, a, i);
        lemma_stays_void(b, a, b[i].source);
        assert(a[k].source_type.is_voidable());
    }
    assert forall|i: int, j: int|
        #![trigger is_kept(b, i), is_kept(b, j)]
        is_kept(b, i) && is_kept(b, j) && b[i].source == b[j].source implies allows(
        (b[i].source_type, b[i].target),
        b[j],
    ) by {
        let k = lemma_stays_kept(b, a, i);
        let l = lemma_stays_kept(b, a, j);
        assert(is_kept(a, k) && is_kept(a, l));
    }
}

/// `x` knows no more than `y`: each target has a type that is no more specific and no further kinds of
/// sources, and each source has the same kind and, unless it may differ, the same target.
spec fn is_within(x: Tables, y: Tables) -> bool {
    &&& forall|target: u64| #[trigger]
        x.types.contains_key(target) ==> y.types.contains_key(target) && y.types[target].at_least(
            x.types[target],
        )
    &&& forall|target: u64, kind: ReferenceSource|
        x.kinds.contains_key(target) && #[trigger] x.kinds[target].contains(kind)
            ==> y.kinds.contains_key(target) && y.kinds[target].contains(kind)
    &&& forall|source: u64| #[trigger]
        x.sources.contains_key(source) ==> y.sources.contains_key(source) && (
        y.sources[source].0 == x.sources[source].0 || y.sources[source].0
            == ReferenceSource::InitArray) && (x.sources[source].0.may_differ()
            || y.sources[source].1 == x.sources[source].1)
}

proof fn lemma_within(a: Seq<Reference>, b: Seq<Reference>)
    requires
        a.to_multiset() == b.to_multiset(),
        settled(a) is Ok,
        settled(b) is Ok,
    ensures
        is_within(settled(a)->Ok_0, settled(b)->Ok_0),
{
    let t = empty_tables();
    assert(t.types.dom() =~= t.kinds.dom());
    let x = settled(a)->Ok_0;
    let y = settled(b)->Ok_0;
    lemma_settled(a, 0, t);
    lemma_settled(b, 0, t);
    lemma_settled_kinds(a, 0, t);
    lemma_settled_kinds(b, 0, t);
    assert forall|target: u64| #[trigger] x.types.contains_key(target) implies y.types.contains_key(
        target,
    ) && y.types[target].at_least(x.types[target]) by {
        let i = choose|i: int|
            i < a.len() && #[trigger] is_kept(a, i) && a[i].target == target && a[i].target_type
                == x.types[target];
        let j = lemma_stays_kept(a, b, i);
        assert(is_kept(b, j));
    }
    assert forall|target: u64, kind: ReferenceSource|
        x.kinds.contains_key(target) && #[trigger] x.kinds[target].contains(
            kind,
        ) implies y.kinds.contains_key(target) && y.kinds[target].contains(kind) by {
        let i = choose|i: int|
            i < a.len() && #[trigger] is_kept(a, i) && a[i].target == target && a[i].source_type
                == kind;
        let j = lemma_stays_kept(a, b, i);
        assert(is_kept(b, j));
    }
    assert forall|source: u64| #[trigger] x.sources.contains_key(
        source,
    ) implies y.sources.contains_key(source) && (y.sources[source].0 == x.sources[source].0
        || y.sources[source].0 == ReferenceSource::InitArray) && (x.sources[source].0.may_differ()
        || y.sources[source].1 == x.sources[source].1) by {
        let i = choose|i: int|
            i < a.len() && #[trigger] is_kept(a, i) && a[i].source == source && a[i].source_type
                == x.sources[source].0;
        let j = lemma_stays_kept(a, b, i);
        assert(is_kept(b, j));
        assert(allows(x.sources[source], a[i]));
        assert(allows(y.sources[source], b[j]));
    }
}

/// The order of the references does not matter for whether they can be settled, nor for what is known
/// then: which targets there are, of what type they are and which kinds of sources they have, and
/// which sources there are, of what kind they are and where they point to. Only where an `adrp` or
/// what is known beforehand has several targets, the first one counts.
pub proof fn law_order_does_not_matter(a: Seq<Reference>, b: Seq<Reference>)
    requires
        a.to_multiset() == b.to_multiset(),
    ensures
        settled(a) is Ok <==> settled(b) is Ok,
        settled(a) is Ok ==> ({
            let (x, y) = (settled(a)->Ok_0, settled(b)->Ok_0);
            &&& x.types == y.types
            &&& x.kinds.dom() == y.kinds.dom()
            &&& forall|target: u64| #[trigger]
                x.kinds.contains_key(target) ==> x.kinds[target].to_set()
                    == y.kinds[target].to_set()
            &&& x.sources.dom() == y.sources.dom()
            &&& forall|source: u64| #[trigger]
                x.sources.contains_key(source) ==> x.sources[source].0 == y.sources[source].0 && (
                x.sources[source].0.may_differ() || x.sources[source].1 == y.sources[source].1)
        }),
{
    law_references_that_agree_are_settled(a);
    law_references_that_agree_are_settled(b);
    if can_settle(a) {
        lemma_still_settles(a, b);
    }
    if can_settle(b) {
        lemma_still_settles(b, a);
    }
    if settled(a) is Ok {
        let (x, y) = (settled(a)->Ok_0, settled(b)->Ok_0);
        let t = empty_tables();
        assert(t.types.dom() =~= t.kinds.dom());
        lemma_within(a, b);
        lemma_within(b, a);
        lemma_settled_kinds(a, 0, t);
        lemma_settled_kinds(b, 0, t);
        assert forall|target: u64| x.types.contains_key(target) implies #[trigger] x.types[target]
            == y.types[target] by {
            assert(y.types.contains_key(target));
        }
        assert(x.types.dom() =~= y.types.dom());
        assert(x.types =~= y.types);
        assert forall|target: u64| #[trigger] x.kinds.contains_key(
            target,
        ) implies x.kinds[target].to_set() == y.kinds[target].to_set() by {
            assert(y.kinds.dom().contains(target));
            assert forall|kind: ReferenceSource| x.kinds[target].to_set().contains(kind)
                == y.kinds[target].to_set().contains(kind) by {
                assert(x.kinds[target].contains(kind) == y.kinds[target].contains(kind));
            }
            assert(x.kinds[target].to_set() =~= y.kinds[target].to_set());
        }
        assert forall|source: u64| x.sources.contains_key(source) == y.sources.contains_key(
            source,
        ) by {}
        assert(x.sources.dom() =~= y.sources.dom());
    }
}

/// References in the order in which they were found.
pub struct ReferenceTracker {
    references: Vec<Reference>,
}

impl View for ReferenceTracker {
    type V = Seq<Reference>;

    closed spec fn view(&self) -> Seq<Reference> {
        self.references@
    }
}

impl ReferenceTracker {
    pub fn new() -> (r: Self)
        ensures
            r@ == Seq::<Reference>::empty(),
    {
        Self { references: Vec::new() }
    }

    pub fn add_reference(
        &mut self,
        target: u64,
        source_type: ReferenceSource,
        source: u64,
        target_type: DataRefType,
    )
        ensures
            final(self)@ == old(self)@.push(
                Reference { source, source_type, target, target_type },
            ),
    {
        self.references.push(Reference { source, source_type, target, target_type });
    }

    /// The references to jump tables, in their order.
    pub fn get_jumptable_references(&self) -> (r: Vec<&Reference>)
        ensures
            r@.map_values(|r: &Reference| *r) == self@.filter(
                |r: Reference| r.target_type is JumpTable,
            ),
    {
        let ghost wanted = |r: Reference| r.target_type is JumpTable;
        let mut found: Vec<&Reference> = Vec::new();
        let mut i: usize = 0;
        while i < self.references.len()
            invariant
                i <= self.references@.len(),
                wanted == (|r: Reference| r.target_type is JumpTable),
                found@.map_values(|r: &Reference| *r) == self.references@.take(i as int).filter(
                    wanted,
                ),
            decreases self.references@.len() - i,
        {
            reveal(Seq::filter);
            assert(self.references@.take(i + 1).drop_last() == self.references@.take(i as int));
            if let DataRefType::JumpTable(_) = self.references[i].target_type {
                let ghost before = found@;
                found.push(&self.references[i]);
                assert(found@.map_values(|r: &Reference| *r) == before.map_values(
                    |r: &Reference| *r,
                ).push(self.references@[i as int]));
            }
            i = i + 1;
        }
        assert(self.references@.take(i as int) == self.references@);
        found
    }

    /// Settles all references into lookup tables.
    pub fn finalize(self) -> (r: Result<References, Error>)
        ensures
            match r {
                Ok(tables) => settled(self@) == Ok::<Tables, Error>(tables@),
                Err(e) => settled(self@) == Err::<Tables, Error>(e),
            },
    {
        let ignored_sources = self.get_ignored_sources();
        let mut tables = References {
            types: HashMap::new(),
            kinds: HashMap::new(),
            references_by_source: HashMap::new(),
        };
        assert(tables@.types =~= empty_tables().types);
        assert(tables@.kinds =~= empty_tables().kinds);
        assert(tables@.sources =~= empty_tables().sources);
        let mut i: usize = 0;
        while i < self.references.len()
            invariant
                i <= self.references@.len(),
                tables.wf(),
                forall|s: u64| ignored_sources@.contains(s) == is_void(self@, s),
                settled(self@) == settled_from(self@, i as int, tables@),
            decreases self.references@.len() - i,
        {
            let reference: Reference = self.references[i];
            assert(self@[i as int] == reference);
            if ignored_sources.contains(&reference.source) {
                if reference.source_type != ReferenceSource::LDR_STR(true) && reference.source_type
                    != ReferenceSource::ADD(true) {
                    return Err(Error::VoidSource { source: reference.source });
                }
            } else {
                tables.note_target(&reference);
                match tables.note_source(&reference) {
                    Ok(()) => {},
                    Err(e) => {
                        return Err(e);
                    },
                }
            }
            i = i + 1;
        }
        Ok(tables)
    }

    /// The sources whose references are void.
    fn get_ignored_sources(&self) -> (r: HashSet<u64>)
        ensures
            forall|s: u64| r@.contains(s) == is_void(self@, s),
    {
        let mut potential_ignored_sources: HashSet<u64> = HashSet::new();
        let mut ignored_sources: HashSet<u64> = HashSet::new();
        reveal(is_void);
        let mut i: usize = 0;
        while i < self.references.len()
            invariant
                i <= self.references@.len(),
                forall|s: u64|
                    potential_ignored_sources@.contains(s) <==> exists|k: int|
                        0 <= k < i && (#[trigger] self.references@[k]).source == s
                            && self.references@[k].source_type.is_voidable(),
                forall|s: u64|
                    ignored_sources@.contains(s) <==> is_void(self.references@.take(i as int), s),
            decreases self.references@.len() - i,
        {
            let reference: Reference = self.references[i];
            let ghost before = self.references@.take(i as int);
            let ghost after = self.references@.take(i + 1);
            let ghost seen = potential_ignored_sources@;
            reveal(is_void);
            assert(after[i as int] == reference);
            assert(forall|k: int| 0 <= k < i ==> #[trigger] after[k] == before[k]);
            match reference.source_type {
                ReferenceSource::LDR_STR(true) | ReferenceSource::ADD(true) => {
                    if !potential_ignored_sources.insert(reference.source) {
                        ignored_sources.insert(reference.source);
                    }
                },
                _ => {},
            }
            assert forall|s: u64| is_void(after, s) <==> is_void(before, s) || (seen.contains(s) && s
                == reference.source && reference.source_type.is_voidable()) by {
                if is_void(before, s) {
                    let (a, b) = choose|a: int, b: int|
                        0 <= a < b < before.len() && (#[trigger] before[a]).source == s && (
                        #[trigger] before[b]).source == s && before[a].source_type.is_voidable()
                            && before[b].source_type.is_voidable();
                    assert(after[a].source == s && after[b].source == s);
                }
                if seen.contains(s) && s == reference.source
                    && reference.source_type.is_voidable() {
                    let k = choose|k: int|
                        0 <= k < i && (#[trigger] self.references@[k]).source == s
                            && self.references@[k].source_type.is_voidable();
                    assert(after[k].source == s && after[i as int].source == s);
                }
                if is_void(after, s) {
                    let (a, b) = choose|a: int, b: int|
                        0 <= a < b < after.len() && (#[trigger] after[a]).source == s && (
                        #[trigger] after[b]).source == s && after[a].source_type.is_voidable()
                            && after[b].source_type.is_voidable();
                    if b < i {
                        assert(before[a].source == s && before[b].source == s);
                    } else {
                        assert(self.references@[a].source == s);
                    }
                }
            }
            i = i + 1;
        }
        assert(self.references@.take(i as int) == self.references@);
        ignored_sources
    }
}

/// Lookup tables over all references.
pub struct References {
    types: HashMap<u64, DataRefType>,
    kinds: HashMap<u64, Vec<ReferenceSource>>,
    references_by_source: HashMap<u64, (ReferenceSource, u64)>,
}

impl View for References {
    type V = Tables;

    closed spec fn view(&self) -> Tables {
        Tables {
            types: self.types@,
            kinds: self.kinds@.map_values(|kinds: Vec<ReferenceSource>| kinds@),
            sources: self.references_by_source@,
        }
    }
}

impl References {
    spec fn wf(&self) -> bool {
        self.types@.dom() == self.kinds@.dom()
    }

    fn note_target(&mut self, reference: &Reference)
        requires
            old(self).wf(),
        ensures
            final(self).wf(),
            final(self)@ == target_noted(old(self)@, *reference),
    {
        let ghost before = self@;
        match self.types.get(&reference.target) {
            Some(known) => {
                let known: DataRefType = *known;
                self.types.insert(reference.target, reference.target_type.choose_better(known));
                let mut kinds = match self.kinds.remove(&reference.target) {
                    Some(kinds) => kinds,
                    None => Vec::new(),
                };
                let ghost old_kinds = kinds@;
                assert(old_kinds == before.kinds[reference.target]);
                let mut i: usize = 0;
                let mut present = false;
                while i < kinds.len()
                    invariant
                        i <= kinds@.len(),
                        kinds@ == old_kinds,
                        present == kinds@.take(i as int).contains(reference.source_type),
                    decreases kinds@.len() - i,
                {
                    assert(kinds@.take(i + 1) == kinds@.take(i as int).push(kinds@[i as int]));
                    assert(kinds@.take(i + 1)[i as int] == kinds@[i as int]);
                    if kinds[i] == reference.source_type {
                        present = true;
                    }
                    proof {
                        if kinds@.take(i as int).contains(reference.source_type) {
                            let k = kinds@.take(i as int).index_of(reference.source_type);
                            assert(kinds@.take(i + 1)[k] == reference.source_type);
                        }
                        if kinds@.take(i + 1).contains(reference.source_type) {
                            let k = kinds@.take(i + 1).index_of(reference.source_type);
                            if k < i {
                                assert(kinds@.take(i as int)[k] == reference.source_type);
                            }
                        }
                    }
                    i = i + 1;
                }
                assert(kinds@.take(i as int) == kinds@);
                if !present {
                    kinds.push(reference.source_type);
                }
                self.kinds.insert(reference.target, kinds);
            },
            None => {
                self.types.insert(reference.target, reference.target_type);
                let mut kinds: Vec<ReferenceSource> = Vec::new();
                kinds.push(reference.source_type);
                assert(kinds@ =~= seq![reference.source_type]);
                self.kinds.insert(reference.target, kinds);
            },
        }
        assert(self@.types =~= target_noted(before, *reference).types);
        assert(self@.kinds =~= target_noted(before, *reference).kinds);
        assert(self.types@.dom() =~= self.kinds@.dom());
    }

    fn note_source(&mut self, reference: &Reference) -> (r: Result<(), Error>)
        requires
            old(self).wf(),
        ensures
            final(self).wf(),
            match r {
                Ok(()) => source_noted(old(self)@, *reference) == Ok::<Tables, Error>(
                    final(self)@,
                ),
                Err(e) => source_noted(old(self)@, *reference) == Err::<Tables, Error>(e),
            },
    {
        let source_type: ReferenceSource = reference.source_type;
        let ghost before = self@;
        match self.references_by_source.get(&reference.source) {
            Some(known) => {
                let known_type: ReferenceSource = known.0;
                let known_target: u64 = known.1;
                if (known_type == ReferenceSource::Relocation && source_type
                    == ReferenceSource::InitArray) || (known_type == ReferenceSource::InitArray
                    && source_type == ReferenceSource::Relocation) {
                    if known_target != reference.target {
                        return Err(Error::InitArrayConflict { source: reference.source });
                    }
                    self.references_by_source.insert(
                        reference.source,
                        (ReferenceSource::InitArray, known_target),
                    );
                    return Ok(());
                }
                if known_type != source_type {
                    return Err(Error::SourceTypeConflict { source: reference.source });
                }
                if source_type != ReferenceSource::ADRP && source_type != ReferenceSource::Hack
                    && known_target != reference.target {
                    return Err(Error::TargetConflict { source: reference.source });
                }
                Ok(())
            },
            None => {
                self.references_by_source.insert(
                    reference.source,
                    (source_type, reference.target),
                );
                Ok(())
            },
        }
    }

    /// The type of the data at `target`, if anything refers to it.
    pub fn get_type_of(&self, target: u64) -> (r: Option<DataRefType>)
        ensures
            r == (if self@.types.contains_key(target) {
                Some(self@.types[target])
            } else {
                None
            }),
    {
        match self.types.get(&target) {
            Some(data_type) => Some(*data_type),
            None => None,
        }
    }

    pub fn has_references_to(&self, target: u64) -> (r: bool)
        ensures
            r == self@.types.contains_key(target),
    {
        self.types.contains_key(&target)
    }

    /// Where the reference at `source` points to, if there is one.
    pub fn get_target_address(&self, source: u64) -> (r: Option<u64>)
        ensures
            r == (if self@.sources.contains_key(source) {
                Some(self@.sources[source].1)
            } else {
                None
            }),
    {
        match self.references_by_source.get(&source) {
            Some(known) => Some(known.1),
            None => None,
        }
    }
}

/// Objects are more specific than functions, these than code, this than jump tables, and these than
/// plain values. Of the plain values the smaller are more specific, and of those of the same size the
/// fractions. Symbols come behind all of them, and what is unknown comes last. Of two types of one kind
/// that with the smaller number is more specific.
pub proof fn law_types_are_ordered(m: u64, n: u64, i: i64, j: i64, t: DataRefType)
    ensures
        !DataRefType::Function(m).at_least(DataRefType::Object(n)),
        !DataRefType::Code.at_least(DataRefType::Function(n)),
        !DataRefType::JumpTable(n).at_least(DataRefType::Code),
        !DataRefType::Float8.at_least(DataRefType::JumpTable(n)),
        !DataRefType::Int8.at_least(DataRefType::Float8),
        !DataRefType::Float16.at_least(DataRefType::Int8),
        !DataRefType::Int16.at_least(DataRefType::Float16),
        !DataRefType::Float32.at_least(DataRefType::Int16),
        !DataRefType::Int32.at_least(DataRefType::Float32),
        !DataRefType::Float64.at_least(DataRefType::Int32),
        !DataRefType::Int64.at_least(DataRefType::Float64),
        !DataRefType::Float128.at_least(DataRefType::Int64),
        !DataRefType::SymbolAbsolute(i).at_least(DataRefType::Float128),
        !DataRefType::Unknown.at_least(DataRefType::SymbolAbsolute(i)),
        DataRefType::Object(m).at_least(DataRefType::Object(n)) <==> m <= n,
        DataRefType::Function(m).at_least(DataRefType::Function(n)) <==> m <= n,
        DataRefType::JumpTable(m).at_least(DataRefType::JumpTable(n)) <==> m <= n,
        DataRefType::SymbolAbsolute(i).at_least(DataRefType::SymbolAbsolute(j)) <==> i <= j,
        t.at_least(DataRefType::Unknown),
{
}

/// At least as specific is an order of all types, and the better one of two types is one of them that is
/// at least as specific as both.
pub proof fn law_types_are_comparable(a: DataRefType, b: DataRefType, c: DataRefType)
    ensures
        a.at_least(b) || b.at_least(a),
        a.at_least(b) && b.at_least(a) ==> a == b,
        a.at_least(b) && b.at_least(c) ==> a.at_least(c),
        a.better(b) == a || a.better(b) == b,
        a.better(b).at_least(a),
        a.better(b).at_least(b),
{
}

/// Only uncertain uses of sums make each other void. Only a page address and what is known beforehand
/// may have several targets. Only relocations and entries of the init array may share a source.
pub proof fn law_kinds_of_sources_differ(a: ReferenceSource, b: ReferenceSource)
    ensures
        a.is_voidable() <==> (a is LDR_STR && a->LDR_STR_0) || (a is ADD && a->ADD_0),
        a.may_differ() <==> a is ADRP || a is Hack,
        a.is_init_pair(b) <==> (a is Relocation && b is InitArray) || (b is Relocation
            && a is InitArray),
{
}

} // verus!
