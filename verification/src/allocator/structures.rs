//! Aggregation levels and the per-UE candidate table.

use crate::defines::NUM_OF_CFI;
use crate::types::bitset::BoundedBitset;
use crate::types::bounded_vec::BoundedVec;
use crate::types::rnti::Rnti;
use vstd::prelude::*;

verus! {

/// How many consecutive CCEs one DCI occupies.
#[derive(Clone, Copy, Debug, Default, PartialEq, Eq, PartialOrd, Ord, Hash, Structural)]
pub enum PdcchAggregation {
    #[default]
    L1,
    L2,
    L4,
    L8,
}

impl PdcchAggregation {
    pub open spec fn spec_size(&self) -> usize {
        match self {
            PdcchAggregation::L1 => 1,
            PdcchAggregation::L2 => 2,
            PdcchAggregation::L4 => 4,
            PdcchAggregation::L8 => 8,
        }
    }

    pub open spec fn spec_location_count(&self) -> usize {
        match self {
            PdcchAggregation::L1 => 6,
            PdcchAggregation::L2 => 6,
            PdcchAggregation::L4 => 2,
            PdcchAggregation::L8 => 2,
        }
    }

    pub open spec fn spec_common_location_count(&self) -> usize {
        match self {
            PdcchAggregation::L1 => 0,
            PdcchAggregation::L2 => 0,
            PdcchAggregation::L4 => 4,
            PdcchAggregation::L8 => 2,
        }
    }

    pub open spec fn spec_index(&self) -> usize {
        match self {
            PdcchAggregation::L1 => 0,
            PdcchAggregation::L2 => 1,
            PdcchAggregation::L4 => 2,
            PdcchAggregation::L8 => 3,
        }
    }

    /// The level at a table position; positions past the last give `L8`.
    pub open spec fn at(i: int) -> PdcchAggregation {
        if i <= 0 {
            PdcchAggregation::L1
        } else if i == 1 {
            PdcchAggregation::L2
        } else if i == 2 {
            PdcchAggregation::L4
        } else {
            PdcchAggregation::L8
        }
    }

    /// Number of consecutive CCEs that a DCI of this level occupies.
    #[verifier::when_used_as_spec(spec_size)]
    pub fn size(&self) -> (r: usize)
        ensures
            r == self.spec_size(),
            1 <= r <= 8,
    {
        match self {
            PdcchAggregation::L1 => 1,
            PdcchAggregation::L2 => 2,
            PdcchAggregation::L4 => 4,
            PdcchAggregation::L8 => 8,
        }
    }

    /// Number of UE-specific candidates that the hash generates for this level.
    #[verifier::when_used_as_spec(spec_location_count)]
    pub fn location_count(&self) -> (r: usize)
        ensures
            r == self.spec_location_count(),
            1 <= r <= 6,
    {
        match self {
            PdcchAggregation::L1 => 6,
            PdcchAggregation::L2 => 6,
            PdcchAggregation::L4 => 2,
            PdcchAggregation::L8 => 2,
        }
    }

    /// Number of candidates of this level in the common search space. The
    /// allocators do not use it.
    #[verifier::when_used_as_spec(spec_common_location_count)]
    pub fn common_location_count(&self) -> (r: usize)
        ensures
            r == self.spec_common_location_count(),
    {
        match self {
            PdcchAggregation::L1 => 0,
            PdcchAggregation::L2 => 0,
            PdcchAggregation::L4 => 4,
            PdcchAggregation::L8 => 2,
        }
    }

    /// Position of the level in tables indexed by level.
    #[verifier::when_used_as_spec(spec_index)]
    pub fn index(&self) -> (r: usize)
        ensures
            r == self.spec_index(),
            r < 4,
            PdcchAggregation::at(r as int) == *self,
    {
        match self {
            PdcchAggregation::L1 => 0,
            PdcchAggregation::L2 => 1,
            PdcchAggregation::L4 => 2,
            PdcchAggregation::L8 => 3,
        }
    }

    /// The four levels in increasing order.
    pub fn list() -> (r: [PdcchAggregation; 4])
        ensures
            r@.len() == 4,
            forall|i: int| 0 <= i < 4 ==> r@[i] == PdcchAggregation::at(i),
    {
        [PdcchAggregation::L1, PdcchAggregation::L2, PdcchAggregation::L4, PdcchAggregation::L8]
    }
}

/// Largest number of DCIs that one allocator holds in a TTI.
pub const MAX_PDCCH: usize = 16;

/// Number of subframes in a radio frame.
pub const NUM_OF_SUBFRAMES: usize = 10;

/// Multiplier of the candidate hash.
pub const HASH_A: u32 = 39827;

/// Modulus of the candidate hash.
pub const HASH_D: u32 = 65537;

/// Occupancy of the CCEs of one control region.
pub type CceMask = BoundedBitset;

/// Number of CCEs at each CFI.
pub type CceCountTable = [u8; NUM_OF_CFI];

/// Candidate start CCEs of one UE at one subframe, CFI and level.
pub type CcePositions = BoundedVec<u8, 6>;

/// Candidates at one CFI, by level.
pub type CfiSearchSpace = [CcePositions; 4];

/// Candidates at one subframe, by CFI.
pub type SfSearchSpace = [CfiSearchSpace; NUM_OF_CFI];

/// Candidates of one UE, by subframe.
pub type SearchSpace = [SfSearchSpace; NUM_OF_SUBFRAMES];

/// The hash state `Y` after `n` steps from the seed `rnti`.
pub open spec fn hash_state(rnti: Rnti, n: nat) -> nat
    decreases n,
{
    if n == 0 {
        rnti.0 as nat
    } else {
        (HASH_A as nat * hash_state(rnti, (n - 1) as nat)) % (HASH_D as nat)
    }
}

/// Number of candidates of a level where `cce_count` CCEs are available:
/// none where not even one candidate fits.
pub open spec fn candidate_count(cce_count: u8, level: PdcchAggregation) -> nat {
    if cce_count as nat / level.spec_size() as nat == 0 {
        0
    } else {
        level.spec_location_count() as nat
    }
}

/// Position of a table cell in the order in which the hash walks the table:
/// subframe by subframe, within a subframe CFI by CFI, within a CFI level by
/// level.
pub open spec fn cell_position(sf: int, cfi: int, level: int) -> nat {
    ((sf * 3 + cfi) * 4 + level) as nat
}

/// CFI index of the cell at a position of the walk.
pub open spec fn cell_cfi(cell: nat) -> int {
    (cell as int / 4) % 3
}

/// Level of the cell at a position of the walk.
pub open spec fn cell_level(cell: nat) -> PdcchAggregation {
    PdcchAggregation::at(cell as int % 4)
}

/// Number of hash steps taken before the walk reaches a cell.
pub open spec fn steps_before(table: CceCountTable, cell: nat) -> nat
    decreases cell,
{
    if cell == 0 {
        0
    } else {
        let prev = (cell - 1) as nat;
        steps_before(table, prev) + candidate_count(table@[cell_cfi(prev)], cell_level(prev))
    }
}

/// Candidate `m` of a cell: `L * ((Y + m) mod floor(N / L))`, with the hash
/// state `Y` that the walk has reached at this candidate.
pub open spec fn candidate(rnti: Rnti, table: CceCountTable, cell: nat, m: int) -> int {
    let size = cell_level(cell).spec_size() as int;
    let modulus = table@[cell_cfi(cell)] as int / size;
    let y = hash_state(rnti, (steps_before(table, cell) + m + 1) as nat) as int;
    size * ((y + m) % modulus)
}

/// The candidate list of a cell.
pub open spec fn cell_candidates(rnti: Rnti, table: CceCountTable, cell: nat) -> Seq<u8> {
    Seq::new(
        candidate_count(table@[cell_cfi(cell)], cell_level(cell)),
        |m: int| candidate(rnti, table, cell, m) as u8,
    )
}

/// The candidate list of a UE at a subframe, CFI index and level.
pub open spec fn candidates(
    rnti: Rnti,
    table: CceCountTable,
    sf: int,
    cfi: int,
    level: PdcchAggregation,
) -> Seq<u8> {
    cell_candidates(rnti, table, cell_position(sf, cfi, level.spec_index() as int))
}

/// `space` is the candidate table of `rnti` under `table`.
pub open spec fn is_search_space(space: SearchSpace, rnti: Rnti, table: CceCountTable) -> bool {
    forall|sf: int, cfi: int, l: int|
        0 <= sf < 10 && 0 <= cfi < 3 && 0 <= l < 4 ==> (#[trigger] space@[sf]@[cfi]@[l])@
            == cell_candidates(rnti, table, cell_position(sf, cfi, l))
}

/// The hash state stays below the modulus, but for the seed itself.
pub proof fn lemma_hash_state_bound(rnti: Rnti, n: nat)
    ensures
        hash_state(rnti, n) <= 65536,
    decreases n,
{
    if n > 0 {
        lemma_hash_state_bound(rnti, (n - 1) as nat);
    }
}

/// Every candidate is a multiple of the level's size and leaves room for a
/// DCI of that size below the CCE count; so it fits in eight bits.
pub proof fn lemma_candidate_in_range(rnti: Rnti, table: CceCountTable, cell: nat, m: int)
    requires
        0 <= m < candidate_count(table@[cell_cfi(cell)], cell_level(cell)),
    ensures
        0 <= candidate(rnti, table, cell, m),
        candidate(rnti, table, cell, m) % (cell_level(cell).spec_size() as int) == 0,
        candidate(rnti, table, cell, m) + cell_level(cell).spec_size() <= table@[cell_cfi(cell)],
        cell_candidates(rnti, table, cell)[m] == candidate(rnti, table, cell, m),
{
    let level = cell_level(cell);
    let size = level.spec_size() as int;
    let n = table@[cell_cfi(cell)] as int;
    let modulus = n / size;
    let y = hash_state(rnti, (steps_before(table, cell) + m + 1) as nat) as int;
    let x = (y + m) % modulus;
    assert(modulus > 0);
    assert(0 <= x < modulus);
    match level {
        PdcchAggregation::L1 => {},
        PdcchAggregation::L2 => {},
        PdcchAggregation::L4 => {},
        PdcchAggregation::L8 => {},
    }
}

/// One cell of the table, from the hash state that the walk has reached.
fn generate_positions(
    y: u32,
    cce_count: u8,
    level: PdcchAggregation,
    Ghost(rnti): Ghost<Rnti>,
    Ghost(table): Ghost<CceCountTable>,
    Ghost(cell): Ghost<nat>,
) -> (r: (CcePositions, u32))
    requires
        y == hash_state(rnti, steps_before(table, cell)),
        cce_count == table@[cell_cfi(cell)],
        level == cell_level(cell),
    ensures
        r.0@ == cell_candidates(rnti, table, cell),
        r.0.wf(),
        r.1 == hash_state(rnti, steps_before(table, cell + 1)),
{
    let mut positions: CcePositions = BoundedVec::new();
    let size: u32 = level.size() as u32;
    let modulus: u32 = cce_count as u32 / size;
    if modulus == 0 {
        assert(positions@ =~= cell_candidates(rnti, table, cell));
        return (positions, y);
    }
    let count: u32 = level.location_count() as u32;
    let ghost base = steps_before(table, cell);
    let mut y_k: u32 = y;
    let mut m: u32 = 0;
    while m < count
        invariant
            m <= count <= 6,
            count == level.spec_location_count(),
            size == level.spec_size(),
            modulus == cce_count as u32 / size,
            modulus > 0,
            cce_count == table@[cell_cfi(cell)],
            level == cell_level(cell),
            base == steps_before(table, cell),
            y_k == hash_state(rnti, (base + m) as nat),
            positions@.len() == m,
            forall|j: int| 0 <= j < m ==> positions@[j] == candidate(rnti, table, cell, j) as u8,
        decreases count - m,
    {
        proof {
            lemma_hash_state_bound(rnti, (base + m) as nat);
            lemma_candidate_in_range(rnti, table, cell, m as int);
        }
        y_k = (HASH_A * y_k) % HASH_D;
        assert(y_k == hash_state(rnti, (base + m + 1) as nat));
        let offset: u32 = (y_k + m) % modulus;
        assert(size * offset == candidate(rnti, table, cell, m as int)) by (nonlinear_arith)
            requires
                size == cell_level(cell).spec_size(),
                modulus == table@[cell_cfi(cell)] as int / (size as int),
                offset == (hash_state(rnti, (steps_before(table, cell) + m + 1) as nat) + m) % (
                modulus as int),
                candidate(rnti, table, cell, m as int) == (size as int) * ((hash_state(
                    rnti,
                    (steps_before(table, cell) + m + 1) as nat,
                ) as int + m) % (table@[cell_cfi(cell)] as int / (size as int))),
        ;
        let start_cce: u32 = size * offset;
        let pushed = positions.push(start_cce as u8);
        m += 1;
    }
    assert(positions@ =~= cell_candidates(rnti, table, cell));
    (positions, y_k)
}

/// The four cells of one CFI, from the hash state that the walk has reached.
fn generate_cfi_space(
    y: u32,
    cce_count: u8,
    Ghost(rnti): Ghost<Rnti>,
    Ghost(table): Ghost<CceCountTable>,
    Ghost(cell): Ghost<nat>,
) -> (r: (CfiSearchSpace, u32))
    requires
        cell % 4 == 0,
        y == hash_state(rnti, steps_before(table, cell)),
        cce_count == table@[cell_cfi(cell)],
    ensures
        forall|l: int|
            0 <= l < 4 ==> (#[trigger] r.0@[l])@ == cell_candidates(rnti, table, (cell + l) as nat),
        r.1 == hash_state(rnti, steps_before(table, cell + 4)),
{
    let (ones, after_ones) = generate_positions(
        y,
        cce_count,
        PdcchAggregation::L1,
        Ghost(rnti),
        Ghost(table),
        Ghost(cell),
    );
    let (twos, after_twos) = generate_positions(
        after_ones,
        cce_count,
        PdcchAggregation::L2,
        Ghost(rnti),
        Ghost(table),
        Ghost(cell + 1),
    );
    let (fours, after_fours) = generate_positions(
        after_twos,
        cce_count,
        PdcchAggregation::L4,
        Ghost(rnti),
        Ghost(table),
        Ghost(cell + 2),
    );
    let (eights, after_eights) = generate_positions(
        after_fours,
        cce_count,
        PdcchAggregation::L8,
        Ghost(rnti),
        Ghost(table),
        Ghost(cell + 3),
    );
    ([ones, twos, fours, eights], after_eights)
}

/// The cells of one subframe, from the hash state that the walk has reached.
fn generate_sf_space(
    y: u32,
    table: &CceCountTable,
    Ghost(rnti): Ghost<Rnti>,
    Ghost(sf): Ghost<nat>,
) -> (r: (SfSearchSpace, u32))
    requires
        y == hash_state(rnti, steps_before(*table, 12 * sf)),
    ensures
        forall|cfi: int, l: int|
            0 <= cfi < 3 && 0 <= l < 4 ==> (#[trigger] r.0@[cfi]@[l])@ == cell_candidates(
                rnti,
                *table,
                cell_position(sf as int, cfi, l),
            ),
        r.1 == hash_state(rnti, steps_before(*table, 12 * (sf + 1))),
{
    let ghost cell: nat = 12 * sf;
    let (at_one, y_one) = generate_cfi_space(y, table[0], Ghost(rnti), Ghost(*table), Ghost(cell));
    let (at_two, y_two) = generate_cfi_space(
        y_one,
        table[1],
        Ghost(rnti),
        Ghost(*table),
        Ghost(cell + 4),
    );
    let (at_three, y_three) = generate_cfi_space(
        y_two,
        table[2],
        Ghost(rnti),
        Ghost(*table),
        Ghost(cell + 8),
    );
    let space: SfSearchSpace = [at_one, at_two, at_three];
    proof {
        assert forall|cfi: int, l: int| 0 <= cfi < 3 && 0 <= l < 4 implies (
        #[trigger] space@[cfi]@[l])@ == cell_candidates(
            rnti,
            *table,
            cell_position(sf as int, cfi, l),
        ) by {
            assert(cell_position(sf as int, cfi, l) == cell + 4 * cfi + l);
        }
    }
    (space, y_three)
}

/// The candidate table of a UE: for each subframe, CFI and level the start
/// CCEs at which a DCI for the UE may be placed. It depends on the
/// identifier and the CCE counts alone.
pub fn calculate_search_space(rnti: &Rnti, cce_count_table: &CceCountTable) -> (r: SearchSpace)
    ensures
        is_search_space(r, *rnti, *cce_count_table),
{
    let ghost id = *rnti;
    let y: u32 = rnti.0 as u32;
    let (s0, y) = generate_sf_space(y, cce_count_table, Ghost(id), Ghost(0));
    let (s1, y) = generate_sf_space(y, cce_count_table, Ghost(id), Ghost(1));
    let (s2, y) = generate_sf_space(y, cce_count_table, Ghost(id), Ghost(2));
    let (s3, y) = generate_sf_space(y, cce_count_table, Ghost(id), Ghost(3));
    let (s4, y) = generate_sf_space(y, cce_count_table, Ghost(id), Ghost(4));
    let (s5, y) = generate_sf_space(y, cce_count_table, Ghost(id), Ghost(5));
    let (s6, y) = generate_sf_space(y, cce_count_table, Ghost(id), Ghost(6));
    let (s7, y) = generate_sf_space(y, cce_count_table, Ghost(id), Ghost(7));
    let (s8, y) = generate_sf_space(y, cce_count_table, Ghost(id), Ghost(8));
    let (s9, y) = generate_sf_space(y, cce_count_table, Ghost(id), Ghost(9));
    [s0, s1, s2, s3, s4, s5, s6, s7, s8, s9]
}

/// Two candidate tables of the same UE under the same CCE counts hold the
/// same candidates in the same order.
pub proof fn lemma_search_space_deterministic(
    a: SearchSpace,
    b: SearchSpace,
    rnti: Rnti,
    table: CceCountTable,
)
    requires
        is_search_space(a, rnti, table),
        is_search_space(b, rnti, table),
    ensures
        forall|sf: int, cfi: int, l: int|
            0 <= sf < 10 && 0 <= cfi < 3 && 0 <= l < 4 ==> (#[trigger] a@[sf]@[cfi]@[l])@ == (
            b@[sf]@[cfi]@[l])@,
{
}

/// Where not even one DCI of a level fits into the CCEs of a CFI, the
/// level has no candidates there.
pub proof fn lemma_no_room_no_candidates(
    space: SearchSpace,
    rnti: Rnti,
    table: CceCountTable,
    sf: int,
    cfi: int,
    level: PdcchAggregation,
)
    requires
        is_search_space(space, rnti, table),
        0 <= sf < 10,
        0 <= cfi < 3,
        table@[cfi] as int / (level.spec_size() as int) == 0,
    ensures
        space@[sf]@[cfi]@[level.spec_index() as int]@.len() == 0,
{
    let l = level.spec_index() as int;
    assert(cell_cfi(cell_position(sf, cfi, l)) == cfi);
    assert(cell_level(cell_position(sf, cfi, l)) == level);
}

/// Every candidate of a table is a multiple of its level's size and leaves
/// room for a DCI of that size below the CCE count of its CFI.
pub proof fn lemma_search_space_in_range(
    space: SearchSpace,
    rnti: Rnti,
    table: CceCountTable,
    sf: int,
    cfi: int,
    level: PdcchAggregation,
    m: int,
)
    requires
        is_search_space(space, rnti, table),
        0 <= sf < 10,
        0 <= cfi < 3,
        0 <= m < space@[sf]@[cfi]@[level.spec_index() as int]@.len(),
    ensures
        space@[sf]@[cfi]@[level.spec_index() as int]@[m] % (level.spec_size() as u8) == 0,
        space@[sf]@[cfi]@[level.spec_index() as int]@[m] + level.spec_size() <= table@[cfi],
{
    let l = level.spec_index() as int;
    let cell = cell_position(sf, cfi, l);
    assert(cell_cfi(cell) == cfi);
    assert(cell_level(cell) == level);
    lemma_candidate_in_range(rnti, table, cell, m);
}

} // verus!
