//! The greedy allocator: each DCI takes the first free candidate, probed
//! from a random start.

use crate::allocator::placement::{
    is_assignment, lemma_disjoint_push, lemma_free_overlaps_none, lemma_occupied_count,
    lemma_occupied_empty, lemma_occupied_push, occupied, total_size, DciRequest, Placement,
};
use crate::allocator::prng::{
    draw_index, fresh_generator, seeded_generator, system_generator,
};
use crate::allocator::structures::{
    CceCountTable, CceMask, CfiSearchSpace, PdcchAggregation, SfSearchSpace, MAX_PDCCH,
};
use crate::defines::NUM_OF_CFI;
use crate::signalling::structs::{AllocationError, AllocationResult};
use crate::types::bounded_vec::BoundedVec;
use crate::types::cfi::Cfi;
use crate::types::rnti::Rnti;
use rand::rngs::StdRng;
use vstd::arithmetic::div_mod::{lemma_mod_add_multiples_vanish, lemma_small_mod};
use vstd::prelude::*;
use vstd::set_lib::*;

verus! {

/// A placed DCI.
#[derive(Clone, Copy, Debug, Default, PartialEq, Eq)]
pub struct PdcchAllocation {
    pub aggregation_level: PdcchAggregation,
    pub start_cce: u8,
    pub rnti: Rnti,
}

impl PdcchAllocation {
    pub open spec fn placement(&self) -> Placement {
        Placement { level: self.aggregation_level, start_cce: self.start_cce, rnti: self.rnti }
    }
}

/// The placements of a list of allocations.
pub open spec fn placements_of(allocations: Seq<PdcchAllocation>) -> Seq<Placement> {
    Seq::new(allocations.len(), |i: int| allocations[i].placement())
}

/// The candidate that a probe of `candidates` tries at step `step`, when it
/// starts at position `first` (taken modulo the number of candidates) and
/// wraps round at the end.
pub open spec fn probed(candidates: Seq<u8>, first: int, step: int) -> u8 {
    candidates[(first % (candidates.len() as int) + step) % (candidates.len() as int)]
}

/// The greedy placement engine of one CFI.
#[derive(Clone)]
pub struct SequentialAllocation {
    cce_count: u8,
    allocation_buffer: BoundedVec<PdcchAllocation, MAX_PDCCH>,
    total_mask: CceMask,
    requests: Ghost<Seq<DciRequest>>,
}

impl SequentialAllocation {
    /// Number of CCEs of the CFI that the engine serves.
    pub closed spec fn spec_cce_count(&self) -> u8 {
        self.cce_count
    }

    /// The DCIs placed since the last reset, in the order of their placement.
    pub closed spec fn allocations(&self) -> Seq<PdcchAllocation> {
        self.allocation_buffer@
    }

    /// The requests that the placed DCIs answer, in the same order.
    pub closed spec fn requests(&self) -> Seq<DciRequest> {
        self.requests@
    }

    /// The CCEs marked as occupied.
    pub closed spec fn mask(&self) -> Set<int> {
        self.total_mask@
    }

    /// Number of CCEs that the occupancy mask ranges over.
    pub closed spec fn mask_size(&self) -> usize {
        self.total_mask.spec_size()
    }

    pub open spec fn placements(&self) -> Seq<Placement> {
        placements_of(self.allocations())
    }

    /// The engine is consistent: it holds at most `MAX_PDCCH` DCIs, each
    /// answers its request, lies within the CCEs of the CFI and shares no
    /// CCE with another, and the mask marks exactly their CCEs.
    pub open spec fn wf(&self) -> bool {
        &&& self.mask_size() == self.spec_cce_count()
        &&& self.allocations().len() <= MAX_PDCCH
        &&& is_assignment(self.placements(), self.requests(), self.spec_cce_count() as int)
        &&& self.mask() == occupied(self.placements())
    }

    /// The engine holds no DCI.
    pub open spec fn is_empty(&self) -> bool {
        &&& self.allocations() == Seq::<PdcchAllocation>::empty()
        &&& self.requests() == Seq::<DciRequest>::empty()
        &&& self.mask() == Set::<int>::empty()
        &&& self.mask_size() == self.spec_cce_count()
    }

    /// The two engines serve the same CFI and hold the same DCIs.
    pub open spec fn same_as(&self, other: &SequentialAllocation) -> bool {
        &&& self.spec_cce_count() == other.spec_cce_count()
        &&& self.allocations() == other.allocations()
        &&& self.requests() == other.requests()
        &&& self.mask() == other.mask()
        &&& self.mask_size() == other.mask_size()
    }

    /// A DCI of `level` at `start` ends within the CCEs of the CFI.
    pub open spec fn in_range(&self, level: PdcchAggregation, start: u8) -> bool {
        start + level.spec_size() <= self.spec_cce_count()
    }

    /// A DCI of `level` at `start` lies within the CCEs of the CFI and meets
    /// no occupied CCE.
    pub open spec fn is_free(&self, level: PdcchAggregation, start: u8) -> bool {
        &&& self.in_range(level, start)
        &&& set_int_range(start as int, start + level.spec_size()).disjoint(self.mask())
    }

    /// The probe that starts at `first` ends at step `step` with a free
    /// candidate: every candidate tried before lies in range and is taken.
    pub open spec fn fits_at(
        &self,
        level: PdcchAggregation,
        candidates: Seq<u8>,
        first: int,
        step: int,
    ) -> bool {
        &&& 0 <= step < candidates.len()
        &&& self.is_free(level, probed(candidates, first, step))
        &&& forall|j: int|
            0 <= j < step ==> self.in_range(level, #[trigger] probed(candidates, first, j))
                && !self.is_free(level, probed(candidates, first, j))
    }

    /// `self` is `before` with one more DCI: of `level`, for `rnti`, at
    /// `start`, which answers a request with the given candidates.
    pub open spec fn is_placement_onto(
        &self,
        before: &SequentialAllocation,
        level: PdcchAggregation,
        candidates: Seq<u8>,
        rnti: Rnti,
        start: u8,
    ) -> bool {
        &&& self.spec_cce_count() == before.spec_cce_count()
        &&& self.mask_size() == before.mask_size()
        &&& self.allocations() == before.allocations().push(
            PdcchAllocation { aggregation_level: level, start_cce: start, rnti },
        )
        &&& self.requests() == before.requests().push(DciRequest { level, candidates, rnti })
        &&& self.mask() == before.mask().union(
            set_int_range(start as int, start + level.spec_size()),
        )
    }

    /// What an attempt to place a DCI makes of the engine `before`, when the
    /// probe starts at `first`: the attempt succeeds exactly when the engine
    /// has room for one more DCI and the probe ends with a free candidate,
    /// and then the DCI is placed there; else nothing changes.
    pub open spec fn is_attempt_on(
        &self,
        before: &SequentialAllocation,
        placed: bool,
        first: int,
        level: PdcchAggregation,
        candidates: Seq<u8>,
        rnti: Rnti,
    ) -> bool {
        &&& placed <==> before.allocations().len() < MAX_PDCCH && exists|step: int|
            before.fits_at(level, candidates, first, step)
        &&& placed ==> exists|step: int|
            before.fits_at(level, candidates, first, step) && self.is_placement_onto(
                before,
                level,
                candidates,
                rnti,
                probed(candidates, first, step),
            )
        &&& !placed ==> self.same_as(before)
    }

    /// The engine for a CFI with `cce_count` CCEs, holding no DCI.
    pub fn new(cce_count: u8) -> (r: SequentialAllocation)
        ensures
            r.wf(),
            r.is_empty(),
            r.spec_cce_count() == cce_count,
    {
        let r = SequentialAllocation {
            cce_count,
            allocation_buffer: BoundedVec::new(),
            total_mask: CceMask::new(cce_count as usize),
            requests: Ghost(Seq::empty()),
        };
        proof {
            assert(r.placements() =~= Seq::<Placement>::empty());
            lemma_occupied_empty();
        }
        r
    }

    /// Forgets every DCI.
    pub fn reset(&mut self)
        ensures
            final(self).wf(),
            final(self).is_empty(),
            final(self).spec_cce_count() == old(self).spec_cce_count(),
    {
        self.allocation_buffer.clear();
        self.total_mask = CceMask::new(self.cce_count as usize);
        self.requests = Ghost(Seq::empty());
        proof {
            assert(self.placements() =~= Seq::<Placement>::empty());
            lemma_occupied_empty();
        }
    }

    /// Tries to place a DCI of `level` for `rnti` at one of its candidates,
    /// probing them in order from position `first` (taken modulo their
    /// number) and wrapping round. The first free candidate is taken. A
    /// candidate that does not lie within the CCEs of the CFI ends the
    /// attempt without a placement, and so does a full engine.
    pub fn try_alloc_from(
        &mut self,
        first: usize,
        aggregation_level: PdcchAggregation,
        search_space: &CfiSearchSpace,
        rnti: Rnti,
    ) -> (r: Result<(), ()>)
        requires
            old(self).wf(),
        ensures
            final(self).wf(),
            final(self).is_attempt_on(
                old(self),
                r is Ok,
                first as int,
                aggregation_level,
                search_space@[aggregation_level.spec_index() as int]@,
                rnti,
            ),
    {
        let candidates = &search_space[aggregation_level.index()];
        let count: usize = candidates.len();
        let ghost before = *self;
        let ghost list = candidates@;
        if count == 0 || self.allocation_buffer.len() >= MAX_PDCCH {
            return Err(());
        }
        let base: usize = first % count;
        let size: usize = aggregation_level.size();
        let mut step: usize = 0;
        while step < count
            invariant
                *self == before,
                before == *old(self),
                self.wf(),
                list == candidates@,
                list == search_space@[aggregation_level.spec_index() as int]@,
                count == list.len(),
                count > 0,
                base == first % count,
                size == aggregation_level.spec_size(),
                self.allocations().len() < MAX_PDCCH,
                step <= count,
                forall|j: int|
                    0 <= j < step ==> self.in_range(
                        aggregation_level,
                        #[trigger] probed(list, first as int, j),
                    ) && !self.is_free(aggregation_level, probed(list, first as int, j)),
            decreases count - step,
        {
            let position: usize = if step < count - base {
                base + step
            } else {
                step - (count - base)
            };
            proof {
                if step < count - base {
                    lemma_small_mod((base + step) as nat, count as nat);
                } else {
                    lemma_mod_add_multiples_vanish((base + step - count) as int, count as int);
                    lemma_small_mod((base + step - count) as nat, count as nat);
                }
            }
            let start_cce: u8 = *candidates.index(position);
            assert(start_cce == probed(list, first as int, step as int));
            let mut alloc_mask = CceMask::new(self.cce_count as usize);
            let filled = alloc_mask.fill(start_cce as usize, size, true);
            if filled.is_err() {
                proof {
                    assert forall|s: int| !self.fits_at(
                        aggregation_level,
                        list,
                        first as int,
                        s,
                    ) by {
                        if s > step {
                            assert(!self.in_range(
                                aggregation_level,
                                probed(list, first as int, step as int),
                            ));
                        }
                    }
                }
                return Err(());
            }
            let ghost cces = set_int_range(start_cce as int, start_cce + size);
            assert(alloc_mask@ =~= cces);
            let meeting = alloc_mask.intersection(&self.total_mask);
            if !meeting.any() {
                let alloc = PdcchAllocation { aggregation_level, start_cce, rnti };
                let ghost request = DciRequest { level: aggregation_level, candidates: list, rnti };
                proof {
                    assert(cces.disjoint(self.mask())) by {
                        assert(cces.intersect(self.mask()) =~= Set::<int>::empty());
                        assert forall|c: int| !(cces.contains(c) && self.mask().contains(c)) by {
                            if cces.contains(c) && self.mask().contains(c) {
                                assert(cces.intersect(self.mask()).contains(c));
                            }
                        }
                    }
                    assert(self.fits_at(aggregation_level, list, first as int, step as int));
                    let p = alloc.placement();
                    assert(p.cces() == cces);
                    lemma_free_overlaps_none(self.placements(), p);
                    lemma_disjoint_push(self.placements(), p);
                    lemma_occupied_push(self.placements(), p);
                    assert(list[position as int] == start_cce);
                    assert(list.contains(start_cce));
                }
                self.total_mask = alloc_mask.union(&self.total_mask);
                let pushed = self.allocation_buffer.push(alloc);
                self.requests = Ghost(self.requests@.push(request));
                proof {
                    assert(self.placements() =~= before.placements().push(alloc.placement()));
                    assert(self.mask() =~= before.mask().union(cces));
                    assert(self.is_placement_onto(&before, aggregation_level, list, rnti, start_cce));
                }
                return Ok(());
            }
            proof {
                assert(!cces.disjoint(self.mask())) by {
                    let c = choose|c: int| meeting@.contains(c);
                    assert(cces.contains(c) && self.mask().contains(c));
                }
            }
            step += 1;
        }
        proof {
            assert forall|s: int| !self.fits_at(aggregation_level, list, first as int, s) by {
                if 0 <= s < count {
                    assert(!self.is_free(aggregation_level, probed(list, first as int, s)));
                }
            }
        }
        Err(())
    }

    /// Tries to place a DCI as `try_alloc_from` does, from a position that
    /// the generator draws. Whatever is drawn, the attempt succeeds where
    /// every candidate lies in range, one of them is free and the engine is
    /// not full, and it fails where no candidate is free.
    pub fn try_alloc(
        &mut self,
        aggregation_level: PdcchAggregation,
        search_space: &CfiSearchSpace,
        rnti: Rnti,
        generator: &mut StdRng,
    ) -> (r: Result<(), ()>)
        requires
            old(self).wf(),
        ensures
            final(self).wf(),
            is_placeable(
                old(self),
                aggregation_level,
                search_space@[aggregation_level.spec_index() as int]@,
            ) ==> r is Ok,
            !has_free_candidate(
                old(self),
                aggregation_level,
                search_space@[aggregation_level.spec_index() as int]@,
            ) ==> r is Err,
            ({
                let placed = r is Ok;
                let candidates = search_space@[aggregation_level.spec_index() as int]@;
                exists|first: int|
                    0 <= first && #[trigger] final(self).is_attempt_on(
                        old(self),
                        placed,
                        first,
                        aggregation_level,
                        candidates,
                        rnti,
                    )
            }),
    {
        let count: usize = search_space[aggregation_level.index()].len();
        let first: usize = if count == 0 {
            0
        } else {
            draw_index(generator, count)
        };
        let ghost before = *self;
        let r = self.try_alloc_from(first, aggregation_level, search_space, rnti);
        proof {
            lemma_attempt_whatever_the_start(
                &before,
                self,
                r is Ok,
                first as int,
                aggregation_level,
                search_space@[aggregation_level.spec_index() as int]@,
                rnti,
            );
        }
        r
    }

    /// The placed DCIs and the CCEs that they occupy.
    pub fn get_allocs(&self) -> (r: (BoundedVec<PdcchAllocation, MAX_PDCCH>, CceMask))
        ensures
            r.0@ == self.allocations(),
            r.1@ == self.mask(),
            r.1.spec_size() == self.mask_size(),
    {
        (self.allocation_buffer.duplicate(), self.total_mask)
    }
}

/// Every candidate of the list lies in range for a DCI of `level`.
pub open spec fn all_in_range(
    engine: &SequentialAllocation,
    level: PdcchAggregation,
    candidates: Seq<u8>,
) -> bool {
    forall|j: int| 0 <= j < candidates.len() ==> engine.in_range(level, #[trigger] candidates[j])
}

/// A candidate of the list is free for a DCI of `level`.
pub open spec fn has_free_candidate(
    engine: &SequentialAllocation,
    level: PdcchAggregation,
    candidates: Seq<u8>,
) -> bool {
    exists|j: int| 0 <= j < candidates.len() && engine.is_free(level, #[trigger] candidates[j])
}

/// The engine is sure to place a DCI of `level`, wherever the probe
/// starts: it is not full, every candidate lies in range and one is free.
pub open spec fn is_placeable(
    engine: &SequentialAllocation,
    level: PdcchAggregation,
    candidates: Seq<u8>,
) -> bool {
    &&& engine.allocations().len() < MAX_PDCCH
    &&& all_in_range(engine, level, candidates)
    &&& has_free_candidate(engine, level, candidates)
}

/// The probe tries positions of the list only.
pub proof fn lemma_probed_is_candidate(candidates: Seq<u8>, first: int, step: int) -> (j: int)
    requires
        candidates.len() > 0,
        0 <= first,
        0 <= step,
    ensures
        0 <= j < candidates.len(),
        probed(candidates, first, step) == candidates[j],
{
    (first % (candidates.len() as int) + step) % (candidates.len() as int)
}

/// The probe reaches every position of the list within as many steps as
/// the list has candidates.
pub proof fn lemma_probe_reaches(candidates: Seq<u8>, first: int, j: int) -> (step: int)
    requires
        0 <= first,
        0 <= j < candidates.len(),
    ensures
        0 <= step < candidates.len(),
        probed(candidates, first, step) == candidates[j],
{
    let count = candidates.len() as int;
    let base = first % count;
    if j >= base {
        lemma_small_mod(j as nat, count as nat);
        j - base
    } else {
        lemma_mod_add_multiples_vanish(j, count);
        lemma_small_mod(j as nat, count as nat);
        j - base + count
    }
}

proof fn lemma_first_free_step(
    engine: &SequentialAllocation,
    level: PdcchAggregation,
    candidates: Seq<u8>,
    first: int,
    upto: int,
)
    requires
        0 <= first,
        0 <= upto < candidates.len(),
        all_in_range(engine, level, candidates),
        engine.is_free(level, probed(candidates, first, upto)),
    ensures
        exists|step: int| engine.fits_at(level, candidates, first, step),
    decreases upto,
{
    if exists|s: int| 0 <= s < upto && engine.is_free(level, probed(candidates, first, s)) {
        let s = choose|s: int| 0 <= s < upto && engine.is_free(level, probed(candidates, first, s));
        lemma_first_free_step(engine, level, candidates, first, s);
    } else {
        assert forall|j: int| 0 <= j < upto implies engine.in_range(
            level,
            #[trigger] probed(candidates, first, j),
        ) && !engine.is_free(level, probed(candidates, first, j)) by {
            let at = lemma_probed_is_candidate(candidates, first, j);
            assert(engine.in_range(level, candidates[at]));
        }
        assert(engine.fits_at(level, candidates, first, upto));
    }
}

/// Where the draw does not matter: an attempt on an engine that is sure to
/// place the DCI succeeds wherever the probe starts, and an attempt on an
/// engine that is full or has no free candidate fails wherever it starts.
pub proof fn lemma_attempt_whatever_the_start(
    before: &SequentialAllocation,
    after: &SequentialAllocation,
    placed: bool,
    first: int,
    level: PdcchAggregation,
    candidates: Seq<u8>,
    rnti: Rnti,
)
    requires
        0 <= first,
        after.is_attempt_on(before, placed, first, level, candidates, rnti),
    ensures
        is_placeable(before, level, candidates) ==> placed,
        !has_free_candidate(before, level, candidates) ==> !placed,
        before.allocations().len() >= MAX_PDCCH ==> !placed,
{
    if is_placeable(before, level, candidates) {
        let j = choose|j: int|
            0 <= j < candidates.len() && before.is_free(level, #[trigger] candidates[j]);
        let step = lemma_probe_reaches(candidates, first, j);
        lemma_first_free_step(before, level, candidates, first, step);
    }
    if !has_free_candidate(before, level, candidates) {
        assert forall|step: int| !before.fits_at(level, candidates, first, step) by {
            if 0 <= step < candidates.len() {
                let at = lemma_probed_is_candidate(candidates, first, step);
                assert(!before.is_free(level, candidates[at]));
            }
        }
    }
}

/// The greedy allocator of a cell: one engine for each CFI, and the CFI in
/// use, which moves up when a DCI does not fit.
pub struct PdcchSchedSequential {
    pub current_cfi: Cfi,
    dci_index: u8,
    allocation_buffer: [SequentialAllocation; NUM_OF_CFI],
    generator: StdRng,
}

impl PdcchSchedSequential {
    /// The engine of the CFI with index `cfi`.
    pub closed spec fn engine(&self, cfi: int) -> SequentialAllocation {
        self.allocation_buffer@[cfi]
    }

    /// The CFI in use.
    pub closed spec fn cfi(&self) -> Cfi {
        self.current_cfi
    }

    /// The identifier that the next placed DCI gets.
    pub closed spec fn spec_dci_index(&self) -> u8 {
        self.dci_index
    }

    /// The generator that the probes draw from.
    pub closed spec fn spec_generator(&self) -> StdRng {
        self.generator
    }

    /// Number of DCIs that the three engines hold together.
    pub open spec fn placed_count(&self) -> nat {
        self.engine(0).allocations().len() + self.engine(1).allocations().len() + self.engine(
            2int,
        ).allocations().len()
    }

    /// The allocator is consistent: each engine is, and the identifiers
    /// given out so far are those of the DCIs that the engines hold.
    pub open spec fn wf(&self) -> bool {
        &&& forall|k: int| 0 <= k < 3 ==> (#[trigger] self.engine(k)).wf()
        &&& self.spec_dci_index() == self.placed_count()
    }

    /// `self` is `before` at the start of a new TTI: the CFI is `One`, no
    /// identifier is given out and no engine holds a DCI.
    pub open spec fn is_new_tti_of(&self, before: &PdcchSchedSequential) -> bool {
        &&& self.cfi() == Cfi::One
        &&& self.spec_dci_index() == 0
        &&& self.spec_generator() == before.spec_generator()
        &&& forall|k: int|
            0 <= k < 3 ==> (#[trigger] self.engine(k)).is_empty() && self.engine(k).spec_cce_count() == before.engine(k).spec_cce_count()
    }

    /// The two allocators are in the same state.
    pub open spec fn same_state(&self, other: &PdcchSchedSequential) -> bool {
        &&& self.cfi() == other.cfi()
        &&& self.spec_dci_index() == other.spec_dci_index()
        &&& self.spec_generator() == other.spec_generator()
        &&& forall|k: int| 0 <= k < 3 ==> (#[trigger] self.engine(k)).same_as(&other.engine(k))
    }

    /// What `allocate_dci` makes of the allocator `before`, when the probe
    /// at the CFI with index `k` starts at `first[k]`. The engines are tried
    /// from the CFI in use upwards. Each one that cannot place the DCI is
    /// left as it was and the CFI moves up; the first one that can place it
    /// does so, and the DCI gets the next identifier. Where none can, the
    /// CFI ends at `Three` and the error is `NoCchSpace`.
    pub open spec fn is_allocation_on(
        &self,
        before: &PdcchSchedSequential,
        result: Result<u8, AllocationError>,
        first: Seq<usize>,
        level: PdcchAggregation,
        search_space: SfSearchSpace,
        rnti: Rnti,
    ) -> bool {
        let start = before.cfi().spec_index() as int;
        let end = self.cfi().spec_index() as int;
        &&& start <= end
        &&& forall|k: int|
            0 <= k < 3 && !(start <= k <= end) ==> (#[trigger] self.engine(k)).same_as(
                &before.engine(k),
            )
        &&& forall|k: int|
            start <= k < end ==> (#[trigger] self.engine(k)).is_attempt_on(
                &before.engine(k),
                false,
                first[k] as int,
                level,
                search_space@[k]@[level.spec_index() as int]@,
                rnti,
            )
        &&& self.engine(end).is_attempt_on(
            &before.engine(end),
            result is Ok,
            first[end] as int,
            level,
            search_space@[end]@[level.spec_index() as int]@,
            rnti,
        )
        &&& match result {
            Ok(id) => id == before.spec_dci_index() && self.spec_dci_index() == id + 1,
            Err(e) => e == AllocationError::NoCchSpace && self.cfi() == Cfi::Three
                && self.spec_dci_index() == before.spec_dci_index(),
        }
    }

    /// An engine from the CFI in use upwards is sure to place a DCI of
    /// `level`, wherever its probe starts.
    pub open spec fn is_sure_to_place(
        &self,
        level: PdcchAggregation,
        search_space: SfSearchSpace,
    ) -> bool {
        exists|k: int|
            self.cfi().spec_index() <= k < 3 && is_placeable(
                &#[trigger] self.engine(k),
                level,
                search_space@[k]@[level.spec_index() as int]@,
            )
    }

    /// No engine from the CFI in use upwards has a free candidate for a DCI
    /// of `level`.
    pub open spec fn has_no_place(&self, level: PdcchAggregation, search_space: SfSearchSpace) -> bool {
        forall|k: int|
            self.cfi().spec_index() <= k < 3 ==> !has_free_candidate(
                &#[trigger] self.engine(k),
                level,
                search_space@[k]@[level.spec_index() as int]@,
            )
    }

    fn with_generator(cce_table: CceCountTable, generator: StdRng) -> (r: PdcchSchedSequential)
        ensures
            r.wf(),
            r.cfi() == Cfi::One,
            r.spec_dci_index() == 0,
            r.spec_generator() == generator,
            forall|k: int|
                0 <= k < 3 ==> (#[trigger] r.engine(k)).is_empty() && r.engine(k).spec_cce_count()
                    == cce_table@[k],
    {
        PdcchSchedSequential {
            current_cfi: Cfi::One,
            dci_index: 0,
            allocation_buffer: [
                SequentialAllocation::new(cce_table[0]),
                SequentialAllocation::new(cce_table[1]),
                SequentialAllocation::new(cce_table[2]),
            ],
            generator,
        }
    }

    /// The allocator of a cell with the given CCE counts, at the start of a
    /// TTI. Its probes draw from a generator that the operating system
    /// seeds, or from one made from the seed 0 where it gives none.
    pub fn new(cce_table: CceCountTable) -> (r: PdcchSchedSequential)
        ensures
            r.wf(),
            r.cfi() == Cfi::One,
            r.spec_dci_index() == 0,
            forall|k: int|
                0 <= k < 3 ==> (#[trigger] r.engine(k)).is_empty() && r.engine(k).spec_cce_count()
                    == cce_table@[k],
    {
        let generator = fresh_generator(system_generator(), seeded_generator(0));
        PdcchSchedSequential::with_generator(cce_table, generator)
    }

    /// The allocator of a cell with the given CCE counts, at the start of a
    /// TTI. Its probes draw from a generator made from `seed`.
    pub fn with_seed(cce_table: CceCountTable, seed: u64) -> (r: PdcchSchedSequential)
        ensures
            r.wf(),
            r.cfi() == Cfi::One,
            r.spec_dci_index() == 0,
            forall|k: int|
                0 <= k < 3 ==> (#[trigger] r.engine(k)).is_empty() && r.engine(k).spec_cce_count()
                    == cce_table@[k],
    {
        PdcchSchedSequential::with_generator(cce_table, seeded_generator(seed))
    }

    /// Starts a new TTI: back to CFI `One`, with no DCI placed.
    pub fn new_tti(&mut self)
        ensures
            final(self).wf(),
            final(self).is_new_tti_of(old(self)),
    {
        self.current_cfi = Cfi::One;
        self.dci_index = 0;
        let mut k: usize = 0;
        while k < NUM_OF_CFI
            invariant
                k <= 3,
                self.cfi() == Cfi::One,
                self.spec_dci_index() == 0,
                self.spec_generator() == old(self).spec_generator(),
                forall|j: int|
                    0 <= j < 3 ==> (#[trigger] self.engine(j)).spec_cce_count() == old(self).engine(j).spec_cce_count(),
                forall|j: int|
                    0 <= j < k ==> (#[trigger] self.engine(j)).is_empty() && self.engine(j).wf(),
            decreases 3 - k,
        {
            let ghost prev = *self;
            self.allocation_buffer[k].reset();
            assert(forall|j: int| 0 <= j < 3 && j != k ==> self.engine(j) == prev.engine(j));
            assert forall|j: int| 0 <= j < 3 implies (#[trigger] self.engine(j)).spec_cce_count()
                == old(self).engine(j).spec_cce_count() by {
                assert(j != k ==> self.engine(j) == prev.engine(j));
                assert(prev.engine(j).spec_cce_count() == old(self).engine(j).spec_cce_count());
            }
            assert forall|j: int| 0 <= j < k + 1 implies (#[trigger] self.engine(j)).is_empty()
                && self.engine(j).wf() by {
                assert(j != k ==> self.engine(j) == prev.engine(j));
                assert(j != k ==> prev.engine(j).is_empty() && prev.engine(j).wf());
            }
            k += 1;
        }
    }

    /// Moves to the next CFI. At `Three` there is none: the CFI stays and
    /// the error is `NoCchSpace`.
    pub fn increment_cfi(&mut self) -> (r: AllocationResult)
        ensures
            old(self).cfi().spec_next() matches Some(next) ==> r is Ok && final(self).cfi() == next,
            old(self).cfi().spec_next() is None ==> r == Err::<(), AllocationError>(
                AllocationError::NoCchSpace,
            ) && final(self).cfi() == Cfi::Three,
            final(self).cfi().spec_index() >= old(self).cfi().spec_index(),
            final(self).spec_dci_index() == old(self).spec_dci_index(),
            final(self).spec_generator() == old(self).spec_generator(),
            forall|k: int| 0 <= k < 3 ==> final(self).engine(k) == old(self).engine(k),
    {
        match self.current_cfi {
            Cfi::One => {
                self.current_cfi = Cfi::Two;
                Ok(())
            },
            Cfi::Two => {
                self.current_cfi = Cfi::Three;
                Ok(())
            },
            Cfi::Three => Err(AllocationError::NoCchSpace),
        }
    }

    fn allocate(
        &mut self,
        aggregation_level: PdcchAggregation,
        search_space: &SfSearchSpace,
        rnti: Rnti,
        draws: Option<[usize; NUM_OF_CFI]>,
    ) -> (r: (Result<u8, AllocationError>, Ghost<Seq<usize>>))
        requires
            old(self).wf(),
        ensures
            final(self).wf(),
            r.1@.len() == 3,
            draws matches Some(given) ==> r.1@ == given@,
            final(self).is_allocation_on(
                old(self),
                r.0,
                r.1@,
                aggregation_level,
                *search_space,
                rnti,
            ),
    {
        let ghost before = *self;
        let ghost mut first: Seq<usize> = match draws {
            Some(given) => given@,
            None => seq![0usize, 0usize, 0usize],
        };
        let level_index: usize = aggregation_level.index();
        loop
            invariant
                before == *old(self),
                before.wf(),
                self.wf(),
                level_index == aggregation_level.spec_index(),
                first.len() == 3,
                draws matches Some(given) ==> first == given@,
                before.cfi().spec_index() <= self.cfi().spec_index(),
                self.spec_dci_index() == before.spec_dci_index(),
                forall|k: int|
                    0 <= k < 3 && !(before.cfi().spec_index() <= k < self.cfi().spec_index())
                        ==> #[trigger] self.engine(k) == before.engine(k),
                forall|k: int|
                    before.cfi().spec_index() <= k < self.cfi().spec_index() ==> (
                    #[trigger] self.engine(k)).is_attempt_on(
                        &before.engine(k),
                        false,
                        first[k] as int,
                        aggregation_level,
                        search_space@[k]@[aggregation_level.spec_index() as int]@,
                        rnti,
                    ),
            decreases 3 - self.cfi().spec_index(),
        {
            let cfi: usize = self.current_cfi.index();
            let start: usize = match draws {
                Some(given) => given[cfi],
                None => {
                    let count: usize = search_space[cfi][level_index].len();
                    if count == 0 {
                        0
                    } else {
                        draw_index(&mut self.generator, count)
                    }
                },
            };
            proof {
                first = first.update(cfi as int, start);
                if let Some(given) = draws {
                    assert(first =~= given@);
                }
            }
            let ghost prev = *self;
            let attempt = self.allocation_buffer[cfi].try_alloc_from(
                start,
                aggregation_level,
                &search_space[cfi],
                rnti,
            );
            assert(forall|j: int| 0 <= j < 3 && j != cfi ==> self.engine(j) == prev.engine(j));
            assert(self.engine(cfi as int).is_attempt_on(
                &before.engine(cfi as int),
                attempt is Ok,
                first[cfi as int] as int,
                aggregation_level,
                search_space@[cfi as int]@[aggregation_level.spec_index() as int]@,
                rnti,
            ));
            match attempt {
                Ok(()) => {
                    let id: u8 = self.dci_index;
                    self.dci_index = id + 1;
                    return (Ok(id), Ghost(first));
                },
                Err(()) => {
                    match self.increment_cfi() {
                        Ok(()) => {},
                        Err(e) => {
                            return (Err(e), Ghost(first));
                        },
                    }
                },
            }
        }
    }

    /// Places a DCI of `aggregation_level` for `rnti` at one of the
    /// candidates of `search_space`, at the CFI in use or, where it does
    /// not fit there, at the first larger CFI at which it fits. Returns the
    /// identifier of the DCI: the number of DCIs placed before it in this
    /// TTI. The probes start where the generator says.
    pub fn allocate_dci(
        &mut self,
        aggregation_level: PdcchAggregation,
        search_space: &SfSearchSpace,
        rnti: Rnti,
    ) -> (r: Result<u8, AllocationError>)
        requires
            old(self).wf(),
        ensures
            final(self).wf(),
            final(self).cfi().spec_index() >= old(self).cfi().spec_index(),
            old(self).is_sure_to_place(aggregation_level, *search_space) ==> r is Ok,
            old(self).has_no_place(aggregation_level, *search_space) ==> r is Err,
            exists|first: Seq<usize>|
                first.len() == 3 && #[trigger] final(self).is_allocation_on(
                    old(self),
                    r,
                    first,
                    aggregation_level,
                    *search_space,
                    rnti,
                ),
    {
        let ghost before = *self;
        let (r, Ghost(first)) = self.allocate(aggregation_level, search_space, rnti, None);
        proof {
            lemma_allocation_whatever_the_starts(
                &before,
                self,
                r,
                first,
                aggregation_level,
                *search_space,
                rnti,
            );
        }
        r
    }

    /// Places a DCI as `allocate_dci` does, with the probe at the CFI with
    /// index `k` starting at position `first[k]` of the candidates (taken
    /// modulo their number).
    pub fn allocate_dci_from(
        &mut self,
        aggregation_level: PdcchAggregation,
        search_space: &SfSearchSpace,
        rnti: Rnti,
        first: [usize; NUM_OF_CFI],
    ) -> (r: Result<u8, AllocationError>)
        requires
            old(self).wf(),
        ensures
            final(self).wf(),
            final(self).cfi().spec_index() >= old(self).cfi().spec_index(),
            final(self).is_allocation_on(
                old(self),
                r,
                first@,
                aggregation_level,
                *search_space,
                rnti,
            ),
    {
        let (r, Ghost(used)) = self.allocate(aggregation_level, search_space, rnti, Some(first));
        r
    }

    /// The DCIs placed at the CFI in use, the CCEs that they occupy, and
    /// that CFI. The DCIs answer the requests that they were placed for,
    /// lie within the CCEs of the CFI and share no CCE; the mask marks
    /// exactly their CCEs, as many as their sizes add up to.
    pub fn get_allocs(&self) -> (r: (BoundedVec<PdcchAllocation, MAX_PDCCH>, CceMask, Cfi))
        requires
            self.wf(),
        ensures
            r.2 == self.cfi(),
            r.0@ == self.engine(r.2.spec_index() as int).allocations(),
            r.0.wf(),
            r.1@ == self.engine(r.2.spec_index() as int).mask(),
            r.1.spec_size() == self.engine(r.2.spec_index() as int).spec_cce_count(),
            is_assignment(
                placements_of(r.0@),
                self.engine(r.2.spec_index() as int).requests(),
                self.engine(r.2.spec_index() as int).spec_cce_count() as int,
            ),
            r.1@ == occupied(placements_of(r.0@)),
            r.1@.len() == total_size(placements_of(r.0@)),
    {
        let (allocation_buffer, total_mask) =
            self.allocation_buffer[self.current_cfi.index()].get_allocs();
        proof {
            lemma_occupied_count(placements_of(allocation_buffer@));
        }
        (allocation_buffer, total_mask, self.current_cfi)
    }
}

/// Starting a new TTI twice in a row leaves the allocator as starting it
/// once does.
pub proof fn lemma_new_tti_idempotent(
    before: PdcchSchedSequential,
    once: PdcchSchedSequential,
    twice: PdcchSchedSequential,
)
    requires
        once.is_new_tti_of(&before),
        twice.is_new_tti_of(&once),
    ensures
        twice.same_state(&once),
{
}

/// Where the draws do not matter: a DCI is placed when an engine from the
/// CFI in use upwards is sure to place it, and it is not placed when none
/// of them has a free candidate.
pub proof fn lemma_allocation_whatever_the_starts(
    before: &PdcchSchedSequential,
    after: &PdcchSchedSequential,
    result: Result<u8, AllocationError>,
    first: Seq<usize>,
    level: PdcchAggregation,
    search_space: SfSearchSpace,
    rnti: Rnti,
)
    requires
        first.len() == 3,
        after.is_allocation_on(before, result, first, level, search_space, rnti),
    ensures
        before.is_sure_to_place(level, search_space) ==> result is Ok,
        before.has_no_place(level, search_space) ==> result is Err,
{
    let start = before.cfi().spec_index() as int;
    let end = after.cfi().spec_index() as int;
    assert forall|k: int| start <= k <= end implies (is_placeable(
        &before.engine(k),
        level,
        search_space@[k]@[level.spec_index() as int]@,
    ) ==> k == end && result is Ok) && (!has_free_candidate(
        &before.engine(k),
        level,
        search_space@[k]@[level.spec_index() as int]@,
    ) && k == end ==> result is Err) by {
        let engine_before = before.engine(k);
        let engine_after = after.engine(k);
        lemma_attempt_whatever_the_start(
            &engine_before,
            &engine_after,
            k == end && result is Ok,
            first[k] as int,
            level,
            search_space@[k]@[level.spec_index() as int]@,
            rnti,
        );
    }
    if before.is_sure_to_place(level, search_space) {
        let k = choose|k: int|
            before.cfi().spec_index() <= k < 3 && is_placeable(
                &#[trigger] before.engine(k),
                level,
                search_space@[k]@[level.spec_index() as int]@,
            );
        if result is Err {
            assert(end == 2);
        }
    }
    if before.has_no_place(level, search_space) {
        assert(!has_free_candidate(
            &before.engine(end),
            level,
            search_space@[end]@[level.spec_index() as int]@,
        ));
    }
}

} // verus!
