//! The greedy allocator with one repair pass: where no candidate of a DCI
//! is free, DCIs placed earlier are moved to other candidates of their own
//! to make room.

use crate::allocator::placement::{
    is_assignment, lemma_disjoint_push, lemma_free_overlaps_none, lemma_occupied_count,
    lemma_occupied_empty, lemma_occupied_push, lemma_overlap_is_intersection, occupied,
    pairwise_disjoint, total_size, DciRequest, Placement,
};
use crate::allocator::prng::{
    draw_index, fresh_generator, seeded_generator, system_generator,
};
use crate::allocator::sequential_pdcch_allocator::{
    lemma_probe_reaches, lemma_probed_is_candidate, probed,
};
use crate::allocator::structures::{
    CceCountTable, CceMask, CfiSearchSpace, PdcchAggregation, SfSearchSpace, MAX_PDCCH,
};
use crate::defines::NUM_OF_CFI;
use crate::signalling::structs::{AllocationError, AllocationResult};
use crate::types::bounded_vec::BoundedVec;
use crate::types::cfi::Cfi;
use crate::types::rnti::Rnti;
use rand::rngs::StdRng;
use vstd::arithmetic::div_mod::{lemma_mod_add_multiples_vanish, lemma_small_mod};
use vstd::prelude::*;
use vstd::set_lib::*;

verus! {

/// A placed DCI, with the CCEs that it occupies.
#[derive(Clone, Copy, Debug, Default)]
pub struct PdcchAllocation {
    pub aggregation_level: PdcchAggregation,
    pub start_cce: u8,
    pub rnti: Rnti,
    mask: CceMask,
}

impl PdcchAllocation {
    pub closed spec fn placement(&self) -> Placement {
        Placement { level: self.aggregation_level, start_cce: self.start_cce, rnti: self.rnti }
    }

    /// The CCEs that the mask of the DCI marks.
    pub closed spec fn mask_cces(&self) -> Set<int> {
        self.mask@
    }

    /// Number of CCEs that the mask of the DCI ranges over.
    pub closed spec fn mask_size(&self) -> usize {
        self.mask.spec_size()
    }

    /// The placement of the DCI, for code that sees only the public fields.
    pub fn to_placement(&self) -> (r: Placement)
        ensures
            r == self.placement(),
    {
        Placement { level: self.aggregation_level, start_cce: self.start_cce, rnti: self.rnti }
    }
}

/// The placements of a list of allocations.
pub open spec fn placements_of(allocations: Seq<PdcchAllocation>) -> Seq<Placement> {
    Seq::new(allocations.len(), |i: int| allocations[i].placement())
}

/// The requests that a list of allocations answers, where allocation `i`
/// was placed from the candidate table `spaces[i]`.
pub open spec fn requests_of(
    allocations: Seq<PdcchAllocation>,
    spaces: Seq<CfiSearchSpace>,
) -> Seq<DciRequest> {
    Seq::new(
        allocations.len(),
        |i: int|
            DciRequest {
                level: allocations[i].placement().level,
                candidates: spaces[i]@[allocations[i].placement().level.spec_index() as int]@,
                rnti: allocations[i].placement().rnti,
            },
    )
}

/// The placement `p` moved to the start CCE `start`.
pub open spec fn moved_to(p: Placement, start: u8) -> Placement {
    Placement { level: p.level, start_cce: start, rnti: p.rnti }
}

/// How the search for another place for one DCI ends.
pub enum Relocation {
    /// The DCI goes to this start CCE.
    Moved(u8),
    /// No candidate of the DCI is free.
    Stuck,
    /// A candidate of the DCI does not lie within the CCEs of the CFI.
    Failed,
}

/// The search for another place for the DCI `moving` among `alternatives`,
/// from position `from` on and in order: the first candidate is taken at
/// which the DCI meets neither `incoming` nor an occupied CCE (its own
/// among them). A candidate that does not lie within the first `cce_count`
/// CCEs ends the search.
pub open spec fn relocation(
    placed: Seq<Placement>,
    moving: Placement,
    alternatives: Seq<u8>,
    incoming: Placement,
    cce_count: int,
    from: int,
) -> Relocation
    decreases alternatives.len() - from,
{
    if from < 0 || from >= alternatives.len() {
        Relocation::Stuck
    } else {
        let target = moved_to(moving, alternatives[from]);
        if !target.within(cce_count) {
            Relocation::Failed
        } else if target.overlaps(incoming) || !target.cces().disjoint(occupied(placed)) {
            relocation(placed, moving, alternatives, incoming, cce_count, from + 1)
        } else {
            Relocation::Moved(alternatives[from])
        }
    }
}

/// How the attempt to clear the way for a DCI ends, and the placements then.
pub enum Clearing {
    /// No placement meets the DCI any more.
    Cleared(Seq<Placement>),
    /// A placement that meets the DCI has no free candidate.
    Stuck(Seq<Placement>),
    /// A candidate of a placement does not lie within the CCEs of the CFI.
    Failed(Seq<Placement>),
}

/// Clears the way for `incoming` among the placements from position `from`
/// on: each one that meets `incoming` is moved to another candidate of its
/// own, as `relocation` says, the others stay. The first one that cannot
/// be moved ends the attempt.
pub open spec fn cleared_from(
    placed: Seq<Placement>,
    requests: Seq<DciRequest>,
    incoming: Placement,
    cce_count: int,
    from: int,
) -> Clearing
    decreases placed.len() - from,
{
    if from < 0 || from >= placed.len() {
        Clearing::Cleared(placed)
    } else if !placed[from].overlaps(incoming) {
        cleared_from(placed, requests, incoming, cce_count, from + 1)
    } else {
        match relocation(placed, placed[from], requests[from].candidates, incoming, cce_count, 0) {
            Relocation::Moved(start) => cleared_from(
                placed.update(from, moved_to(placed[from], start)),
                requests,
                incoming,
                cce_count,
                from + 1,
            ),
            Relocation::Stuck => Clearing::Stuck(placed),
            Relocation::Failed => Clearing::Failed(placed),
        }
    }
}

/// The repair pass for `request`, from its candidate `from` on: the way is
/// cleared for the DCI at the candidate, and the DCI is placed there where
/// that succeeds. Where a placement is stuck, the pass goes on with the
/// next candidate, and the placements moved so far stay moved. A candidate
/// that does not lie within the first `cce_count` CCEs ends the pass. The
/// result says whether the DCI was placed, and gives the placements then.
pub open spec fn shuffled_from(
    placed: Seq<Placement>,
    requests: Seq<DciRequest>,
    request: DciRequest,
    cce_count: int,
    from: int,
) -> (bool, Seq<Placement>)
    decreases request.candidates.len() - from,
{
    if from < 0 || from >= request.candidates.len() {
        (false, placed)
    } else {
        let incoming = Placement {
            level: request.level,
            start_cce: request.candidates[from],
            rnti: request.rnti,
        };
        if !incoming.within(cce_count) {
            (false, placed)
        } else {
            match cleared_from(placed, requests, incoming, cce_count, 0) {
                Clearing::Cleared(moved) => (true, moved.push(incoming)),
                Clearing::Stuck(moved) => shuffled_from(
                    moved,
                    requests,
                    request,
                    cce_count,
                    from + 1,
                ),
                Clearing::Failed(moved) => (false, moved),
            }
        }
    }
}

/// An assignment stays one when one of its placements moves to another
/// candidate of its own at which it lies within the CCEs and meets no
/// occupied CCE.
pub proof fn lemma_relocated_assignment(
    placed: Seq<Placement>,
    requests: Seq<DciRequest>,
    cce_count: int,
    i: int,
    start: u8,
)
    requires
        is_assignment(placed, requests, cce_count),
        0 <= i < placed.len(),
        requests[i].candidates.contains(start),
        moved_to(placed[i], start).within(cce_count),
        moved_to(placed[i], start).cces().disjoint(occupied(placed)),
    ensures
        is_assignment(placed.update(i, moved_to(placed[i], start)), requests, cce_count),
{
    let target = moved_to(placed[i], start);
    let after = placed.update(i, target);
    lemma_free_overlaps_none(placed, target);
    assert(placed[i].answers(requests[i]));
    assert forall|k: int| 0 <= k < after.len() implies (#[trigger] after[k]).answers(
        requests[k],
    ) by {
        if k != i {
            assert(placed[k].answers(requests[k]));
        }
    }
    assert forall|k: int| 0 <= k < after.len() implies (#[trigger] after[k]).within(cce_count) by {
        if k != i {
            assert(placed[k].within(cce_count));
        }
    }
    assert forall|a: int, b: int| 0 <= a < b < after.len() implies !(#[trigger] after[a]).overlaps(
        #[trigger] after[b],
    ) by {
        if a == i {
            assert(!target.overlaps(placed[b]));
        } else if b == i {
            assert(!target.overlaps(placed[a]));
        } else {
            assert(!placed[a].overlaps(placed[b]));
        }
    }
}

/// A copy of a candidate table.
fn duplicate_space(search_space: &CfiSearchSpace) -> (r: CfiSearchSpace)
    ensures
        forall|l: int| 0 <= l < 4 ==> (#[trigger] r@[l])@ == search_space@[l]@,
{
    [
        search_space[0].duplicate(),
        search_space[1].duplicate(),
        search_space[2].duplicate(),
        search_space[3].duplicate(),
    ]
}

/// How a step of the repair pass ended.
#[derive(Clone, Copy, Debug, PartialEq, Eq, Structural)]
enum Outcome {
    Done,
    Stuck,
    Failed,
}

/// The greedy placement engine of one CFI, with a repair pass.
#[derive(Clone, Debug)]
pub struct ShufflingAllocation {
    cce_count: u8,
    allocation_buffer: BoundedVec<PdcchAllocation, MAX_PDCCH>,
    /// The candidate table that each placed DCI was placed from.
    search_space_buffer: BoundedVec<CfiSearchSpace, MAX_PDCCH>,
    total_mask: CceMask,
}

impl ShufflingAllocation {
    /// Number of CCEs of the CFI that the engine serves.
    pub closed spec fn spec_cce_count(&self) -> u8 {
        self.cce_count
    }

    /// The DCIs placed since the last reset, in the order of their placement.
    pub closed spec fn allocations(&self) -> Seq<PdcchAllocation> {
        self.allocation_buffer@
    }

    /// The candidate tables that the DCIs were placed from, in the same order.
    pub closed spec fn spaces(&self) -> Seq<CfiSearchSpace> {
        self.search_space_buffer@
    }

    /// The CCEs marked as occupied.
    pub closed spec fn mask(&self) -> Set<int> {
        self.total_mask@
    }

    /// Number of CCEs that the occupancy mask ranges over.
    pub closed spec fn mask_size(&self) -> usize {
        self.total_mask.spec_size()
    }

    pub open spec fn placements(&self) -> Seq<Placement> {
        placements_of(self.allocations())
    }

    /// The requests that the placed DCIs answer.
    pub open spec fn requests(&self) -> Seq<DciRequest> {
        requests_of(self.allocations(), self.spaces())
    }

    /// The engine is consistent: it holds at most `MAX_PDCCH` DCIs, each
    /// answers its request, lies within the CCEs of the CFI and shares no
    /// CCE with another, and the masks mark exactly their CCEs.
    pub open spec fn wf(&self) -> bool {
        &&& self.mask_size() == self.spec_cce_count()
        &&& self.allocations().len() <= MAX_PDCCH
        &&& self.spaces().len() == self.allocations().len()
        &&& is_assignment(self.placements(), self.requests(), self.spec_cce_count() as int)
        &&& self.mask() == occupied(self.placements())
        &&& forall|i: int|
            0 <= i < self.allocations().len() ==> (#[trigger] self.allocations()[i]).mask_cces()
                == self.allocations()[i].placement().cces() && self.allocations()[i].mask_size()
                == self.spec_cce_count()
    }

    /// The engine holds no DCI.
    pub open spec fn is_empty(&self) -> bool {
        &&& self.allocations() == Seq::<PdcchAllocation>::empty()
        &&& self.spaces() == Seq::<CfiSearchSpace>::empty()
        &&& self.mask() == Set::<int>::empty()
        &&& self.mask_size() == self.spec_cce_count()
    }

    /// The two engines serve the same CFI and hold the same DCIs at the
    /// same places.
    pub open spec fn same_as(&self, other: &ShufflingAllocation) -> bool {
        &&& self.spec_cce_count() == other.spec_cce_count()
        &&& self.placements() == other.placements()
        &&& self.requests() == other.requests()
        &&& self.mask() == other.mask()
        &&& self.mask_size() == other.mask_size()
    }

    /// The engine for a CFI with `cce_count` CCEs, holding no DCI.
    pub fn new(cce_count: u8) -> (r: ShufflingAllocation)
        ensures
            r.wf(),
            r.is_empty(),
            r.spec_cce_count() == cce_count,
    {
        let r = ShufflingAllocation {
            cce_count,
            allocation_buffer: BoundedVec::new(),
            search_space_buffer: BoundedVec::new(),
            total_mask: CceMask::new(cce_count as usize),
        };
        proof {
            assert(r.placements() =~= Seq::<Placement>::empty());
            lemma_occupied_empty();
        }
        r
    }

    /// Forgets every DCI.
    pub fn reset(&mut self)
        ensures
            final(self).wf(),
            final(self).is_empty(),
            final(self).spec_cce_count() == old(self).spec_cce_count(),
    {
        self.allocation_buffer.clear();
        self.search_space_buffer.clear();
        self.total_mask = CceMask::new(self.cce_count as usize);
        proof {
            assert(self.placements() =~= Seq::<Placement>::empty());
            lemma_occupied_empty();
        }
    }

    /// The mask of a DCI of `level` at `start`, or nothing where the DCI
    /// would not end within the CCEs of the CFI.
    fn cces_mask(&self, start: u8, level: PdcchAggregation) -> (r: Result<CceMask, ()>)
        requires
            self.mask_size() == self.spec_cce_count(),
        ensures
            r is Ok <==> start + level.spec_size() <= self.spec_cce_count(),
            r matches Ok(mask) ==> mask@ == set_int_range(start as int, start + level.spec_size())
                && mask.spec_size() == self.spec_cce_count(),
    {
        let mut mask = CceMask::new(self.cce_count as usize);
        match mask.fill(start as usize, level.size(), true) {
            Ok(()) => {
                assert(mask@ =~= set_int_range(start as int, start + level.spec_size()));
                Ok(mask)
            },
            Err(()) => Err(()),
        }
    }

    /// Marks as occupied exactly the CCEs of the placed DCIs.
    fn rebuild_total_mask(&mut self)
        requires
            forall|i: int|
                0 <= i < old(self).allocations().len() ==> (
                #[trigger] old(self).allocations()[i]).mask_cces() == old(self).allocations()[i].placement().cces() && old(self).allocations()[i].mask_size()
                    == old(self).spec_cce_count(),
        ensures
            final(self).mask() == occupied(final(self).placements()),
            final(self).mask_size() == final(self).spec_cce_count(),
            final(self).spec_cce_count() == old(self).spec_cce_count(),
            final(self).allocations() == old(self).allocations(),
            final(self).spaces() == old(self).spaces(),
    {
        let mut total = CceMask::new(self.cce_count as usize);
        let count: usize = self.allocation_buffer.len();
        let ghost placed = self.placements();
        let mut i: usize = 0;
        proof {
            assert(placed.take(0) =~= Seq::<Placement>::empty());
            lemma_occupied_empty();
        }
        while i < count
            invariant
                i <= count == self.allocations().len(),
                placed == self.placements(),
                total@ == occupied(placed.take(i as int)),
                total.spec_size() == self.spec_cce_count(),
                forall|k: int|
                    0 <= k < self.allocations().len() ==> (
                    #[trigger] self.allocations()[k]).mask_cces()
                        == self.allocations()[k].placement().cces()
                        && self.allocations()[k].mask_size() == self.spec_cce_count(),
            decreases count - i,
        {
            let alloc = self.allocation_buffer.index(i);
            proof {
                assert(self.allocations()[i as int].mask_cces() == placed[i as int].cces());
                assert(placed.take(i + 1) =~= placed.take(i as int).push(placed[i as int]));
                lemma_occupied_push(placed.take(i as int), placed[i as int]);
            }
            total = total.union(&alloc.mask);
            i += 1;
        }
        proof {
            assert(placed.take(count as int) =~= placed);
        }
        self.total_mask = total;
    }

    /// A DCI of `level` at `start` ends within the CCEs of the CFI.
    pub open spec fn in_range(&self, level: PdcchAggregation, start: u8) -> bool {
        start + level.spec_size() <= self.spec_cce_count()
    }

    /// A DCI of `level` at `start` lies within the CCEs of the CFI and meets
    /// no occupied CCE.
    pub open spec fn is_free(&self, level: PdcchAggregation, start: u8) -> bool {
        &&& self.in_range(level, start)
        &&& set_int_range(start as int, start + level.spec_size()).disjoint(self.mask())
    }

    /// The probe that starts at `first` ends at step `step` with a free
    /// candidate: every candidate tried before lies in range and is taken.
    pub open spec fn fits_at(
        &self,
        level: PdcchAggregation,
        candidates: Seq<u8>,
        first: int,
        step: int,
    ) -> bool {
        &&& 0 <= step < candidates.len()
        &&& self.is_free(level, probed(candidates, first, step))
        &&& forall|j: int|
            0 <= j < step ==> self.in_range(level, #[trigger] probed(candidates, first, j))
                && !self.is_free(level, probed(candidates, first, j))
    }

    /// The probe that starts at `first` ends at step `step` with a candidate
    /// that does not lie in range: every candidate tried before lies in
    /// range and is taken.
    pub open spec fn fails_at(
        &self,
        level: PdcchAggregation,
        candidates: Seq<u8>,
        first: int,
        step: int,
    ) -> bool {
        &&& 0 <= step < candidates.len()
        &&& !self.in_range(level, probed(candidates, first, step))
        &&& forall|j: int|
            0 <= j < step ==> self.in_range(level, #[trigger] probed(candidates, first, j))
                && !self.is_free(level, probed(candidates, first, j))
    }

    /// `self` is `before` with one more DCI: of `level`, for `rnti`, at
    /// `start`, which answers a request with the given candidates.
    pub open spec fn is_placement_onto(
        &self,
        before: &ShufflingAllocation,
        level: PdcchAggregation,
        candidates: Seq<u8>,
        rnti: Rnti,
        start: u8,
    ) -> bool {
        &&& self.spec_cce_count() == before.spec_cce_count()
        &&& self.mask_size() == before.mask_size()
        &&& self.placements() == before.placements().push(
            Placement { level, start_cce: start, rnti },
        )
        &&& self.requests() == before.requests().push(DciRequest { level, candidates, rnti })
        &&& self.mask() == before.mask().union(
            set_int_range(start as int, start + level.spec_size()),
        )
    }

    /// What the repair pass for a DCI makes of the engine `before`: the
    /// placements are those that `shuffled_from` gives, and the DCI is
    /// placed exactly when `shuffled_from` says so. A full engine is left
    /// as it is.
    pub open spec fn is_shuffle_of(
        &self,
        before: &ShufflingAllocation,
        placed: bool,
        level: PdcchAggregation,
        candidates: Seq<u8>,
        rnti: Rnti,
    ) -> bool {
        let request = DciRequest { level, candidates, rnti };
        let outcome = if before.allocations().len() >= MAX_PDCCH {
            (false, before.placements())
        } else {
            shuffled_from(
                before.placements(),
                before.requests(),
                request,
                before.spec_cce_count() as int,
                0,
            )
        };
        &&& self.spec_cce_count() == before.spec_cce_count()
        &&& placed == outcome.0
        &&& self.placements() == outcome.1
        &&& self.requests() == if placed {
            before.requests().push(request)
        } else {
            before.requests()
        }
    }

    /// What an attempt to place a DCI makes of the engine `before`, when the
    /// probe starts at `first`. A full engine is left as it is. Where the
    /// probe ends with a free candidate, the DCI is placed there. Where it
    /// ends with a candidate that does not lie in range, nothing changes.
    /// Where every candidate lies in range and none is free, the repair
    /// pass decides.
    #[verifier::opaque]
    pub open spec fn is_attempt_on(
        &self,
        before: &ShufflingAllocation,
        placed: bool,
        first: int,
        level: PdcchAggregation,
        candidates: Seq<u8>,
        rnti: Rnti,
    ) -> bool {
        if before.allocations().len() >= MAX_PDCCH {
            !placed && self.same_as(before)
        } else if exists|step: int| before.fits_at(level, candidates, first, step) {
            placed && exists|step: int|
                before.fits_at(level, candidates, first, step) && self.is_placement_onto(
                    before,
                    level,
                    candidates,
                    rnti,
                    probed(candidates, first, step),
                )
        } else if exists|step: int| before.fails_at(level, candidates, first, step) {
            !placed && self.same_as(before)
        } else {
            self.is_shuffle_of(before, placed, level, candidates, rnti)
        }
    }

    /// Places a DCI at a free candidate.
    fn commit(
        &mut self,
        alloc_mask: CceMask,
        aggregation_level: PdcchAggregation,
        start_cce: u8,
        rnti: Rnti,
        search_space: &CfiSearchSpace,
    )
        requires
            old(self).wf(),
            old(self).allocations().len() < MAX_PDCCH,
            old(self).is_free(aggregation_level, start_cce),
            alloc_mask@ == set_int_range(
                start_cce as int,
                start_cce + aggregation_level.spec_size(),
            ),
            alloc_mask.spec_size() == old(self).spec_cce_count(),
            search_space@[aggregation_level.spec_index() as int]@.contains(start_cce),
        ensures
            final(self).wf(),
            final(self).is_placement_onto(
                old(self),
                aggregation_level,
                search_space@[aggregation_level.spec_index() as int]@,
                rnti,
                start_cce,
            ),
    {
        let ghost placed = self.placements();
        let ghost asked = self.requests();
        let ghost before_allocations = self.allocations();
        let ghost n = self.cce_count as int;
        let ghost list = search_space@[aggregation_level.spec_index() as int]@;
        let ghost request = DciRequest { level: aggregation_level, candidates: list, rnti };
        let alloc = PdcchAllocation { aggregation_level, start_cce, rnti, mask: alloc_mask };
        let ghost incoming = alloc.placement();
        proof {
            lemma_free_overlaps_none(placed, incoming);
            lemma_disjoint_push(placed, incoming);
            lemma_occupied_push(placed, incoming);
        }
        self.total_mask = alloc_mask.union(&self.total_mask);
        let pushed = self.allocation_buffer.push(alloc);
        let kept = self.search_space_buffer.push(duplicate_space(search_space));
        proof {
            assert(self.placements() =~= placed.push(incoming));
            assert(self.requests() =~= asked.push(request));
            assert(self.mask() =~= occupied(self.placements()));
            lemma_pushed_assignment(placed, asked, incoming, request, n);
            assert forall|i: int| 0 <= i < self.allocations().len() implies (
            #[trigger] self.allocations()[i]).mask_cces()
                == self.allocations()[i].placement().cces() && self.allocations()[i].mask_size()
                == self.spec_cce_count() by {
                if i < before_allocations.len() {
                    assert(self.allocations()[i] == before_allocations[i]);
                }
            }
        }
    }

    /// Tries to place a DCI of `level` for `rnti` at one of its candidates,
    /// probing them in order from position `first` (taken modulo their
    /// number) and wrapping round. The first free candidate is taken. A
    /// candidate that does not lie within the CCEs of the CFI ends the
    /// attempt without a placement, and so does a full engine. Where every
    /// candidate lies in range and none is free, the repair pass follows.
    pub fn try_alloc_from(
        &mut self,
        first: usize,
        aggregation_level: PdcchAggregation,
        search_space: &CfiSearchSpace,
        rnti: Rnti,
    ) -> (r: Result<(), ()>)
        requires
            old(self).wf(),
        ensures
            final(self).wf(),
            final(self).is_attempt_on(
                old(self),
                r is Ok,
                first as int,
                aggregation_level,
                search_space@[aggregation_level.spec_index() as int]@,
                rnti,
            ),
    {
        proof {
            reveal(ShufflingAllocation::is_attempt_on);
        }
        if self.allocation_buffer.len() >= MAX_PDCCH {
            return Err(());
        }
        let level_index: usize = aggregation_level.index();
        let count: usize = search_space[level_index].len();
        let ghost list = search_space@[level_index as int]@;
        if count != 0 {
            let base: usize = first % count;
            let mut step: usize = 0;
            while step < count
                invariant
                    *self == *old(self),
                    self.wf(),
                    level_index == aggregation_level.spec_index(),
                    list == search_space@[level_index as int]@,
                    count == list.len(),
                    count > 0,
                    base == first % count,
                    self.allocations().len() < MAX_PDCCH,
                    step <= count,
                    forall|j: int|
                        0 <= j < step ==> self.in_range(
                            aggregation_level,
                            #[trigger] probed(list, first as int, j),
                        ) && !self.is_free(aggregation_level, probed(list, first as int, j)),
                decreases count - step,
            {
                let position: usize = if step < count - base {
                    base + step
                } else {
                    step - (count - base)
                };
                proof {
                    if step < count - base {
                        lemma_small_mod((base + step) as nat, count as nat);
                    } else {
                        lemma_mod_add_multiples_vanish((base + step - count) as int, count as int);
                        lemma_small_mod((base + step - count) as nat, count as nat);
                    }
                }
                let start_cce: u8 = *search_space[level_index].index(position);
                assert(start_cce == probed(list, first as int, step as int));
                proof {
                    reveal(ShufflingAllocation::is_attempt_on);
                }
                let alloc_mask = match self.cces_mask(start_cce, aggregation_level) {
                    Ok(mask) => mask,
                    Err(()) => {
                        proof {
                            assert(self.fails_at(aggregation_level, list, first as int, step as int));
                            assert forall|s: int| !self.fits_at(
                                aggregation_level,
                                list,
                                first as int,
                                s,
                            ) by {
                                if s > step {
                                    assert(!self.in_range(
                                        aggregation_level,
                                        probed(list, first as int, step as int),
                                    ));
                                }
                            }
                        }
                        return Err(());
                    },
                };
                proof {
                    lemma_meeting(alloc_mask@, self.mask());
                }
                if !alloc_mask.intersection(&self.total_mask).any() {
                    proof {
                        assert(self.fits_at(aggregation_level, list, first as int, step as int));
                        assert(list[position as int] == start_cce);
                        assert(list.contains(start_cce));
                    }
                    self.commit(alloc_mask, aggregation_level, start_cce, rnti, search_space);
                    return Ok(());
                }
                step += 1;
            }
        }
        proof {
            assert forall|s: int| !self.fits_at(aggregation_level, list, first as int, s) by {
                if 0 <= s < count {
                    assert(!self.is_free(aggregation_level, probed(list, first as int, s)));
                }
            }
            assert forall|s: int| !self.fails_at(aggregation_level, list, first as int, s) by {
                if 0 <= s < count {
                    assert(self.in_range(aggregation_level, probed(list, first as int, s)));
                }
            }
        }
        self.shuffle(aggregation_level, search_space, rnti)
    }

    /// Tries to place a DCI as `try_alloc_from` does, from a position that
    /// the generator draws.
    pub fn try_alloc(
        &mut self,
        aggregation_level: PdcchAggregation,
        search_space: &CfiSearchSpace,
        rnti: Rnti,
        generator: &mut StdRng,
    ) -> (r: Result<(), ()>)
        requires
            old(self).wf(),
        ensures
            final(self).wf(),
            is_placeable(
                old(self),
                aggregation_level,
                search_space@[aggregation_level.spec_index() as int]@,
            ) ==> r is Ok,
            ({
                let placed = r is Ok;
                let candidates = search_space@[aggregation_level.spec_index() as int]@;
                exists|first: int|
                    0 <= first && #[trigger] final(self).is_attempt_on(
                        old(self),
                        placed,
                        first,
                        aggregation_level,
                        candidates,
                        rnti,
                    )
            }),
    {
        let count: usize = search_space[aggregation_level.index()].len();
        let first: usize = if count == 0 {
            0
        } else {
            draw_index(generator, count)
        };
        let ghost before = *self;
        let r = self.try_alloc_from(first, aggregation_level, search_space, rnti);
        proof {
            lemma_attempt_whatever_the_start(
                &before,
                self,
                r is Ok,
                first as int,
                aggregation_level,
                search_space@[aggregation_level.spec_index() as int]@,
                rnti,
            );
        }
        r
    }

    /// The placed DCIs and the CCEs that they occupy.
    pub fn get_allocs(&self) -> (r: (BoundedVec<PdcchAllocation, MAX_PDCCH>, CceMask))
        ensures
            r.0@ == self.allocations(),
            r.1@ == self.mask(),
            r.1.spec_size() == self.mask_size(),
    {
        (self.allocation_buffer.duplicate(), self.total_mask)
    }

    /// Looks for another place for the DCI at position `idx`, among its own
    /// candidates and in their order: the first at which it meets neither
    /// the incoming DCI nor an occupied CCE. Moves the DCI there.
    fn relocate(
        &mut self,
        idx: usize,
        incoming_mask: &CceMask,
        Ghost(incoming): Ghost<Placement>,
    ) -> (r: Outcome)
        requires
            old(self).wf(),
            idx < old(self).allocations().len(),
            incoming_mask@ == incoming.cces(),
        ensures
            final(self).wf(),
            final(self).spec_cce_count() == old(self).spec_cce_count(),
            final(self).spaces() == old(self).spaces(),
            final(self).requests() == old(self).requests(),
            final(self).allocations().len() == old(self).allocations().len(),
            match relocation(
                old(self).placements(),
                old(self).placements()[idx as int],
                old(self).requests()[idx as int].candidates,
                incoming,
                old(self).spec_cce_count() as int,
                0,
            ) {
                Relocation::Moved(start) => r == Outcome::Done && final(self).placements() == old(self).placements().update(
                    idx as int,
                    moved_to(old(self).placements()[idx as int], start),
                ) && !moved_to(old(self).placements()[idx as int], start).overlaps(incoming),
                Relocation::Stuck => r == Outcome::Stuck && final(self).placements() == old(self).placements(),
                Relocation::Failed => r == Outcome::Failed && final(self).placements() == old(self).placements(),
            },
    {
        let current: PdcchAllocation = *self.allocation_buffer.index(idx);
        let level: PdcchAggregation = current.aggregation_level;
        let level_index: usize = level.index();
        let count: usize = self.search_space_buffer.index(idx)[level_index].len();
        let ghost placed = self.placements();
        let ghost moving = placed[idx as int];
        let ghost asked = self.requests();
        let ghost alternatives = asked[idx as int].candidates;
        let ghost n = self.cce_count as int;
        let mut k: usize = 0;
        while k < count
            invariant
                *self == *old(self),
                self.wf(),
                idx < self.allocations().len(),
                current == self.allocations()[idx as int],
                level == current.placement().level,
                level_index == level.spec_index(),
                placed == self.placements(),
                moving == placed[idx as int],
                asked == self.requests(),
                alternatives == asked[idx as int].candidates,
                alternatives == self.spaces()[idx as int]@[level_index as int]@,
                count == alternatives.len(),
                n == self.spec_cce_count(),
                incoming_mask@ == incoming.cces(),
                k <= count,
                relocation(placed, moving, alternatives, incoming, n, 0) == relocation(
                    placed,
                    moving,
                    alternatives,
                    incoming,
                    n,
                    k as int,
                ),
            decreases count - k,
        {
            let some_cce: u8 = *self.search_space_buffer.index(idx)[level_index].index(k);
            let ghost target = moved_to(moving, some_cce);
            let temporary_mask = match self.cces_mask(some_cce, level) {
                Ok(mask) => mask,
                Err(()) => {
                    return Outcome::Failed;
                },
            };
            assert(temporary_mask@ == target.cces());
            let meets_incoming = temporary_mask.intersection(incoming_mask).any();
            let meets_placed = temporary_mask.intersection(&self.total_mask).any();
            proof {
                lemma_overlap_is_intersection(target, incoming);
                lemma_meeting(target.cces(), incoming.cces());
                lemma_meeting(target.cces(), occupied(placed));
            }
            if meets_incoming || meets_placed {
                k += 1;
            } else {
                let moved = PdcchAllocation {
                    aggregation_level: level,
                    start_cce: some_cce,
                    rnti: current.rnti,
                    mask: temporary_mask,
                };
                proof {
                    assert(alternatives[k as int] == some_cce);
                    assert(alternatives.contains(some_cce));
                    lemma_relocated_assignment(placed, asked, n, idx as int, some_cce);
                }
                self.allocation_buffer.set(idx, moved);
                proof {
                    assert(self.placements() =~= placed.update(idx as int, target));
                    assert(self.requests() =~= asked);
                }
                self.rebuild_total_mask();
                return Outcome::Done;
            }
        }
        Outcome::Stuck
    }

    /// Clears the way for the incoming DCI: each placed DCI that meets it
    /// is moved to another candidate of its own. Stops at the first one
    /// that cannot be moved.
    fn clear_way(&mut self, incoming_mask: &CceMask, Ghost(incoming): Ghost<Placement>) -> (r:
        Outcome)
        requires
            old(self).wf(),
            incoming_mask@ == incoming.cces(),
        ensures
            final(self).wf(),
            final(self).spec_cce_count() == old(self).spec_cce_count(),
            final(self).spaces() == old(self).spaces(),
            final(self).requests() == old(self).requests(),
            final(self).allocations().len() == old(self).allocations().len(),
            match cleared_from(
                old(self).placements(),
                old(self).requests(),
                incoming,
                old(self).spec_cce_count() as int,
                0,
            ) {
                Clearing::Cleared(moved) => r == Outcome::Done && final(self).placements() == moved
                    && forall|i: int|
                    0 <= i < moved.len() ==> !(#[trigger] moved[i]).overlaps(incoming),
                Clearing::Stuck(moved) => r == Outcome::Stuck && final(self).placements() == moved,
                Clearing::Failed(moved) => r == Outcome::Failed && final(self).placements()
                    == moved,
            },
    {
        let ghost start = self.placements();
        let ghost asked = self.requests();
        let ghost n = self.cce_count as int;
        let count: usize = self.allocation_buffer.len();
        let mut idx: usize = 0;
        while idx < count
            invariant
                self.wf(),
                self.spec_cce_count() == old(self).spec_cce_count(),
                self.spaces() == old(self).spaces(),
                self.requests() == asked,
                asked == old(self).requests(),
                start == old(self).placements(),
                n == self.spec_cce_count(),
                count == self.allocations().len(),
                count == old(self).allocations().len(),
                incoming_mask@ == incoming.cces(),
                idx <= count,
                forall|i: int| 0 <= i < idx ==> !(#[trigger] self.placements()[i]).overlaps(incoming),
                cleared_from(start, asked, incoming, n, 0) == cleared_from(
                    self.placements(),
                    asked,
                    incoming,
                    n,
                    idx as int,
                ),
            decreases count - idx,
        {
            let current: PdcchAllocation = *self.allocation_buffer.index(idx);
            let ghost placed = self.placements();
            proof {
                assert(current.mask_cces() == placed[idx as int].cces());
                lemma_overlap_is_intersection(placed[idx as int], incoming);
                lemma_meeting(incoming.cces(), placed[idx as int].cces());
            }
            if incoming_mask.intersection(&current.mask).any() {
                assert(placed[idx as int].overlaps(incoming));
                match self.relocate(idx, incoming_mask, Ghost(incoming)) {
                    Outcome::Done => {},
                    Outcome::Stuck => {
                        return Outcome::Stuck;
                    },
                    Outcome::Failed => {
                        return Outcome::Failed;
                    },
                }
            }
            proof {
                assert forall|i: int| 0 <= i < idx + 1 implies !(
                #[trigger] self.placements()[i]).overlaps(incoming) by {
                    if i < idx {
                        assert(!placed[i].overlaps(incoming));
                    }
                }
            }
            idx += 1;
        }
        Outcome::Done
    }

    /// The repair pass: for each candidate of the DCI in turn, clears the
    /// way and places the DCI where that succeeds. A candidate that does
    /// not lie within the CCEs of the CFI ends the pass without a
    /// placement, as does a full engine.
    pub fn shuffle(
        &mut self,
        aggregation_level: PdcchAggregation,
        search_space: &CfiSearchSpace,
        rnti: Rnti,
    ) -> (r: Result<(), ()>)
        requires
            old(self).wf(),
        ensures
            final(self).wf(),
            final(self).is_shuffle_of(
                old(self),
                r is Ok,
                aggregation_level,
                search_space@[aggregation_level.spec_index() as int]@,
                rnti,
            ),
    {
        if self.allocation_buffer.len() >= MAX_PDCCH {
            return Err(());
        }
        let level_index: usize = aggregation_level.index();
        let count: usize = search_space[level_index].len();
        let ghost start = self.placements();
        let ghost asked = self.requests();
        let ghost n = self.cce_count as int;
        let ghost list = search_space@[level_index as int]@;
        let ghost request = DciRequest { level: aggregation_level, candidates: list, rnti };
        let mut j: usize = 0;
        while j < count
            invariant
                self.wf(),
                self.spec_cce_count() == old(self).spec_cce_count(),
                self.requests() == asked,
                asked == old(self).requests(),
                start == old(self).placements(),
                n == self.spec_cce_count(),
                self.allocations().len() == old(self).allocations().len(),
                self.allocations().len() < MAX_PDCCH,
                level_index == aggregation_level.spec_index(),
                list == search_space@[level_index as int]@,
                request == (DciRequest { level: aggregation_level, candidates: list, rnti }),
                count == list.len(),
                j <= count,
                shuffled_from(start, asked, request, n, 0) == shuffled_from(
                    self.placements(),
                    asked,
                    request,
                    n,
                    j as int,
                ),
            decreases count - j,
        {
            let start_cce: u8 = *search_space[level_index].index(j);
            let ghost incoming = Placement { level: aggregation_level, start_cce, rnti };
            let alloc_mask = match self.cces_mask(start_cce, aggregation_level) {
                Ok(mask) => mask,
                Err(()) => {
                    return Err(());
                },
            };
            match self.clear_way(&alloc_mask, Ghost(incoming)) {
                Outcome::Done => {
                    proof {
                        lemma_free_overlaps_none(self.placements(), incoming);
                        assert(list[j as int] == start_cce);
                        assert(list.contains(start_cce));
                    }
                    self.commit(alloc_mask, aggregation_level, start_cce, rnti, search_space);
                    return Ok(());
                },
                Outcome::Stuck => {},
                Outcome::Failed => {
                    return Err(());
                },
            }
            j += 1;
        }
        Err(())
    }
}

/// Two sets meet exactly when their intersection has an element.
proof fn lemma_meeting(a: Set<int>, b: Set<int>)
    ensures
        (exists|c: int| a.intersect(b).contains(c)) <==> !a.disjoint(b),
{
    if !a.disjoint(b) {
        let c = choose|c: int| a.contains(c) && b.contains(c);
        assert(a.intersect(b).contains(c));
    }
}

/// An assignment stays one when a placement is put behind it that answers
/// the next request, lies within the CCEs and overlaps none.
proof fn lemma_pushed_assignment(
    placed: Seq<Placement>,
    requests: Seq<DciRequest>,
    p: Placement,
    request: DciRequest,
    cce_count: int,
)
    requires
        is_assignment(placed, requests, cce_count),
        p.answers(request),
        p.within(cce_count),
        pairwise_disjoint(placed.push(p)),
    ensures
        is_assignment(placed.push(p), requests.push(request), cce_count),
{
    let more = placed.push(p);
    let asked = requests.push(request);
    assert forall|i: int| 0 <= i < more.len() implies (#[trigger] more[i]).answers(asked[i]) by {
        if i < placed.len() {
            assert(placed[i].answers(requests[i]));
        }
    }
    assert forall|i: int| 0 <= i < more.len() implies (#[trigger] more[i]).within(cce_count) by {
        if i < placed.len() {
            assert(placed[i].within(cce_count));
        }
    }
}

/// Every candidate of the list lies in range for a DCI of `level`.
pub open spec fn all_in_range(
    engine: &ShufflingAllocation,
    level: PdcchAggregation,
    candidates: Seq<u8>,
) -> bool {
    forall|j: int| 0 <= j < candidates.len() ==> engine.in_range(level, #[trigger] candidates[j])
}

/// A candidate of the list is free for a DCI of `level`.
pub open spec fn has_free_candidate(
    engine: &ShufflingAllocation,
    level: PdcchAggregation,
    candidates: Seq<u8>,
) -> bool {
    exists|j: int| 0 <= j < candidates.len() && engine.is_free(level, #[trigger] candidates[j])
}

/// The engine is sure to place a DCI of `level`, wherever the probe
/// starts: it is not full, every candidate lies in range and one is free.
pub open spec fn is_placeable(
    engine: &ShufflingAllocation,
    level: PdcchAggregation,
    candidates: Seq<u8>,
) -> bool {
    &&& engine.allocations().len() < MAX_PDCCH
    &&& all_in_range(engine, level, candidates)
    &&& has_free_candidate(engine, level, candidates)
}

proof fn lemma_first_free_step(
    engine: &ShufflingAllocation,
    level: PdcchAggregation,
    candidates: Seq<u8>,
    first: int,
    upto: int,
)
    requires
        0 <= first,
        0 <= upto < candidates.len(),
        all_in_range(engine, level, candidates),
        engine.is_free(level, probed(candidates, first, upto)),
    ensures
        exists|step: int| engine.fits_at(level, candidates, first, step),
    decreases upto,
{
    if exists|s: int| 0 <= s < upto && engine.is_free(level, probed(candidates, first, s)) {
        let s = choose|s: int| 0 <= s < upto && engine.is_free(level, probed(candidates, first, s));
        lemma_first_free_step(engine, level, candidates, first, s);
    } else {
        assert forall|j: int| 0 <= j < upto implies engine.in_range(
            level,
            #[trigger] probed(candidates, first, j),
        ) && !engine.is_free(level, probed(candidates, first, j)) by {
            let at = lemma_probed_is_candidate(candidates, first, j);
            assert(engine.in_range(level, candidates[at]));
        }
        assert(engine.fits_at(level, candidates, first, upto));
    }
}

/// Where the draw does not matter: an attempt on an engine that is sure to
/// place the DCI succeeds wherever the probe starts, and an attempt on a
/// full engine or without a candidate fails. The attempt adds the DCI to
/// the requests exactly when it succeeds.
pub proof fn lemma_attempt_whatever_the_start(
    before: &ShufflingAllocation,
    after: &ShufflingAllocation,
    placed: bool,
    first: int,
    level: PdcchAggregation,
    candidates: Seq<u8>,
    rnti: Rnti,
)
    requires
        0 <= first,
        after.is_attempt_on(before, placed, first, level, candidates, rnti),
    ensures
        is_placeable(before, level, candidates) ==> placed,
        before.allocations().len() >= MAX_PDCCH ==> !placed,
        candidates.len() == 0 ==> !placed,
        after.spec_cce_count() == before.spec_cce_count(),
        after.allocations().len() == before.allocations().len() + if placed {
            1int
        } else {
            0int
        },
        after.requests() == if placed {
            before.requests().push(DciRequest { level, candidates, rnti })
        } else {
            before.requests()
        },
{
    reveal(ShufflingAllocation::is_attempt_on);
    assert(before.requests().len() == before.allocations().len());
    assert(after.requests().len() == after.allocations().len());
    if is_placeable(before, level, candidates) {
        let j = choose|j: int|
            0 <= j < candidates.len() && before.is_free(level, #[trigger] candidates[j]);
        let step = lemma_probe_reaches(candidates, first, j);
        lemma_first_free_step(before, level, candidates, first, step);
    }
}

/// The greedy allocator with repair of a cell: one engine for each CFI, and
/// the CFI in use, which moves up when a DCI does not fit.
pub struct PdcchSchedShuffling {
    pub current_cfi: Cfi,
    dci_index: u8,
    allocation_buffer: [ShufflingAllocation; NUM_OF_CFI],
    generator: StdRng,
}

impl PdcchSchedShuffling {
    /// The engine of the CFI with index `cfi`.
    pub closed spec fn engine(&self, cfi: int) -> ShufflingAllocation {
        self.allocation_buffer@[cfi]
    }

    /// The CFI in use.
    pub closed spec fn cfi(&self) -> Cfi {
        self.current_cfi
    }

    /// The identifier that the next placed DCI gets.
    pub closed spec fn spec_dci_index(&self) -> u8 {
        self.dci_index
    }

    /// The generator that the probes draw from.
    pub closed spec fn spec_generator(&self) -> StdRng {
        self.generator
    }

    /// Number of DCIs that the three engines hold together.
    pub open spec fn placed_count(&self) -> nat {
        self.engine(0).allocations().len() + self.engine(1).allocations().len() + self.engine(
            2int,
        ).allocations().len()
    }

    /// The allocator is consistent: each engine is, and the identifiers
    /// given out so far are those of the DCIs that the engines hold.
    pub open spec fn wf(&self) -> bool {
        &&& forall|k: int| 0 <= k < 3 ==> (#[trigger] self.engine(k)).wf()
        &&& self.spec_dci_index() == self.placed_count()
    }

    /// `self` is `before` at the start of a new TTI: the CFI is `One`, no
    /// identifier is given out and no engine holds a DCI.
    pub open spec fn is_new_tti_of(&self, before: &PdcchSchedShuffling) -> bool {
        &&& self.cfi() == Cfi::One
        &&& self.spec_dci_index() == 0
        &&& self.spec_generator() == before.spec_generator()
        &&& forall|k: int|
            0 <= k < 3 ==> (#[trigger] self.engine(k)).is_empty() && self.engine(k).spec_cce_count() == before.engine(k).spec_cce_count()
    }

    /// The two allocators are in the same state.
    pub open spec fn same_state(&self, other: &PdcchSchedShuffling) -> bool {
        &&& self.cfi() == other.cfi()
        &&& self.spec_dci_index() == other.spec_dci_index()
        &&& self.spec_generator() == other.spec_generator()
        &&& forall|k: int| 0 <= k < 3 ==> (#[trigger] self.engine(k)).same_as(&other.engine(k))
    }

    /// What `allocate_dci` makes of the allocator `before`, when the probe
    /// at the CFI with index `k` starts at `first[k]`. The engines are tried
    /// from the CFI in use upwards. Each one that cannot place the DCI is
    /// left as it was and the CFI moves up; the first one that can place it
    /// does so, and the DCI gets the next identifier. Where none can, the
    /// CFI ends at `Three` and the error is `NoCchSpace`.
    pub open spec fn is_allocation_on(
        &self,
        before: &PdcchSchedShuffling,
        result: Result<u8, AllocationError>,
        first: Seq<usize>,
        level: PdcchAggregation,
        search_space: SfSearchSpace,
        rnti: Rnti,
    ) -> bool {
        let start = before.cfi().spec_index() as int;
        let end = self.cfi().spec_index() as int;
        &&& start <= end
        &&& forall|k: int|
            0 <= k < 3 && !(start <= k <= end) ==> (#[trigger] self.engine(k)).same_as(
                &before.engine(k),
            )
        &&& forall|k: int|
            start <= k < end ==> (#[trigger] self.engine(k)).is_attempt_on(
                &before.engine(k),
                false,
                first[k] as int,
                level,
                search_space@[k]@[level.spec_index() as int]@,
                rnti,
            )
        &&& self.engine(end).is_attempt_on(
            &before.engine(end),
            result is Ok,
            first[end] as int,
            level,
            search_space@[end]@[level.spec_index() as int]@,
            rnti,
        )
        &&& match result {
            Ok(id) => id == before.spec_dci_index() && self.spec_dci_index() == id + 1,
            Err(e) => e == AllocationError::NoCchSpace && self.cfi() == Cfi::Three
                && self.spec_dci_index() == before.spec_dci_index(),
        }
    }

    /// An engine from the CFI in use upwards is sure to place a DCI of
    /// `level`, wherever its probe starts.
    pub open spec fn is_sure_to_place(
        &self,
        level: PdcchAggregation,
        search_space: SfSearchSpace,
    ) -> bool {
        exists|k: int|
            self.cfi().spec_index() <= k < 3 && is_placeable(
                &#[trigger] self.engine(k),
                level,
                search_space@[k]@[level.spec_index() as int]@,
            )
    }

    fn with_generator(cce_table: CceCountTable, generator: StdRng) -> (r: PdcchSchedShuffling)
        ensures
            r.wf(),
            r.cfi() == Cfi::One,
            r.spec_dci_index() == 0,
            r.spec_generator() == generator,
            forall|k: int|
                0 <= k < 3 ==> (#[trigger] r.engine(k)).is_empty() && r.engine(k).spec_cce_count()
                    == cce_table@[k],
    {
        PdcchSchedShuffling {
            current_cfi: Cfi::One,
            dci_index: 0,
            allocation_buffer: [
                ShufflingAllocation::new(cce_table[0]),
                ShufflingAllocation::new(cce_table[1]),
                ShufflingAllocation::new(cce_table[2]),
            ],
            generator,
        }
    }

    /// The allocator of a cell with the given CCE counts, at the start of a
    /// TTI. Its probes draw from a generator that the operating system
    /// seeds, or from one made from the seed 0 where it gives none.
    pub fn new(cce_table: CceCountTable) -> (r: PdcchSchedShuffling)
        ensures
            r.wf(),
            r.cfi() == Cfi::One,
            r.spec_dci_index() == 0,
            forall|k: int|
                0 <= k < 3 ==> (#[trigger] r.engine(k)).is_empty() && r.engine(k).spec_cce_count()
                    == cce_table@[k],
    {
        let generator = fresh_generator(system_generator(), seeded_generator(0));
        PdcchSchedShuffling::with_generator(cce_table, generator)
    }

    /// The allocator of a cell with the given CCE counts, at the start of a
    /// TTI. Its probes draw from a generator made from `seed`.
    pub fn with_seed(cce_table: CceCountTable, seed: u64) -> (r: PdcchSchedShuffling)
        ensures
            r.wf(),
            r.cfi() == Cfi::One,
            r.spec_dci_index() == 0,
            forall|k: int|
                0 <= k < 3 ==> (#[trigger] r.engine(k)).is_empty() && r.engine(k).spec_cce_count()
                    == cce_table@[k],
    {
        PdcchSchedShuffling::with_generator(cce_table, seeded_generator(seed))
    }

    /// Starts a new TTI: back to CFI `One`, with no DCI placed.
    pub fn new_tti(&mut self)
        ensures
            final(self).wf(),
            final(self).is_new_tti_of(old(self)),
    {
        self.current_cfi = Cfi::One;
        self.dci_index = 0;
        let mut k: usize = 0;
        while k < NUM_OF_CFI
            invariant
                k <= 3,
                self.cfi() == Cfi::One,
                self.spec_dci_index() == 0,
                self.spec_generator() == old(self).spec_generator(),
                forall|j: int|
                    0 <= j < 3 ==> (#[trigger] self.engine(j)).spec_cce_count() == old(self).engine(j).spec_cce_count(),
                forall|j: int|
                    0 <= j < k ==> (#[trigger] self.engine(j)).is_empty() && self.engine(j).wf(),
            decreases 3 - k,
        {
            let ghost prev = *self;
            self.allocation_buffer[k].reset();
            assert(forall|j: int| 0 <= j < 3 && j != k ==> self.engine(j) == prev.engine(j));
            assert forall|j: int| 0 <= j < 3 implies (#[trigger] self.engine(j)).spec_cce_count()
                == old(self).engine(j).spec_cce_count() by {
                assert(j != k ==> self.engine(j) == prev.engine(j));
                assert(prev.engine(j).spec_cce_count() == old(self).engine(j).spec_cce_count());
            }
            assert forall|j: int| 0 <= j < k + 1 implies (#[trigger] self.engine(j)).is_empty()
                && self.engine(j).wf() by {
                assert(j != k ==> self.engine(j) == prev.engine(j));
                assert(j != k ==> prev.engine(j).is_empty() && prev.engine(j).wf());
            }
            k += 1;
        }
    }

    /// Moves to the next CFI. At `Three` there is none: the CFI stays and
    /// the error is `NoCchSpace`.
    pub fn increment_cfi(&mut self) -> (r: AllocationResult)
        ensures
            old(self).cfi().spec_next() matches Some(next) ==> r is Ok && final(self).cfi() == next,
            old(self).cfi().spec_next() is None ==> r == Err::<(), AllocationError>(
                AllocationError::NoCchSpace,
            ) && final(self).cfi() == Cfi::Three,
            final(self).cfi().spec_index() >= old(self).cfi().spec_index(),
            final(self).spec_dci_index() == old(self).spec_dci_index(),
            final(self).spec_generator() == old(self).spec_generator(),
            forall|k: int| 0 <= k < 3 ==> final(self).engine(k) == old(self).engine(k),
    {
        match self.current_cfi {
            Cfi::One => {
                self.current_cfi = Cfi::Two;
                Ok(())
            },
            Cfi::Two => {
                self.current_cfi = Cfi::Three;
                Ok(())
            },
            Cfi::Three => Err(AllocationError::NoCchSpace),
        }
    }

    fn allocate(
        &mut self,
        aggregation_level: PdcchAggregation,
        search_space: &SfSearchSpace,
        rnti: Rnti,
        draws: Option<[usize; NUM_OF_CFI]>,
    ) -> (r: (Result<u8, AllocationError>, Ghost<Seq<usize>>))
        requires
            old(self).wf(),
        ensures
            final(self).wf(),
            r.1@.len() == 3,
            draws matches Some(given) ==> r.1@ == given@,
            final(self).is_allocation_on(
                old(self),
                r.0,
                r.1@,
                aggregation_level,
                *search_space,
                rnti,
            ),
    {
        let ghost before = *self;
        let ghost mut first: Seq<usize> = match draws {
            Some(given) => given@,
            None => seq![0usize, 0usize, 0usize],
        };
        let level_index: usize = aggregation_level.index();
        loop
            invariant
                before == *old(self),
                before.wf(),
                self.wf(),
                level_index == aggregation_level.spec_index(),
                first.len() == 3,
                draws matches Some(given) ==> first == given@,
                before.cfi().spec_index() <= self.cfi().spec_index(),
                self.spec_dci_index() == before.spec_dci_index(),
                forall|k: int|
                    0 <= k < 3 && !(before.cfi().spec_index() <= k < self.cfi().spec_index())
                        ==> #[trigger] self.engine(k) == before.engine(k),
                forall|k: int|
                    before.cfi().spec_index() <= k < self.cfi().spec_index() ==> (
                    #[trigger] self.engine(k)).is_attempt_on(
                        &before.engine(k),
                        false,
                        first[k] as int,
                        aggregation_level,
                        search_space@[k]@[aggregation_level.spec_index() as int]@,
                        rnti,
                    ),
            decreases 3 - self.cfi().spec_index(),
        {
            let cfi: usize = self.current_cfi.index();
            let start: usize = match draws {
                Some(given) => given[cfi],
                None => {
                    let count: usize = search_space[cfi][level_index].len();
                    if count == 0 {
                        0
                    } else {
                        draw_index(&mut self.generator, count)
                    }
                },
            };
            proof {
                first = first.update(cfi as int, start);
                if let Some(given) = draws {
                    assert(first =~= given@);
                }
            }
            let ghost prev = *self;
            let attempt = self.allocation_buffer[cfi].try_alloc_from(
                start,
                aggregation_level,
                &search_space[cfi],
                rnti,
            );
            assert(forall|j: int| 0 <= j < 3 && j != cfi ==> self.engine(j) == prev.engine(j));
            assert(self.engine(cfi as int).is_attempt_on(
                &before.engine(cfi as int),
                attempt is Ok,
                first[cfi as int] as int,
                aggregation_level,
                search_space@[cfi as int]@[aggregation_level.spec_index() as int]@,
                rnti,
            ));
            proof {
                lemma_attempt_whatever_the_start(
                    &before.engine(cfi as int),
                    &self.engine(cfi as int),
                    attempt is Ok,
                    first[cfi as int] as int,
                    aggregation_level,
                    search_space@[cfi as int]@[aggregation_level.spec_index() as int]@,
                    rnti,
                );
            }
            match attempt {
                Ok(()) => {
                    let id: u8 = self.dci_index;
                    self.dci_index = id + 1;
                    return (Ok(id), Ghost(first));
                },
                Err(()) => {
                    match self.increment_cfi() {
                        Ok(()) => {},
                        Err(e) => {
                            return (Err(e), Ghost(first));
                        },
                    }
                },
            }
        }
    }

    /// Places a DCI of `aggregation_level` for `rnti` at one of the
    /// candidates of `search_space`, at the CFI in use or, where it does
    /// not fit there, at the first larger CFI at which it fits. Returns the
    /// identifier of the DCI: the number of DCIs placed before it in this
    /// TTI. The probes start where the generator says.
    pub fn allocate_dci(
        &mut self,
        aggregation_level: PdcchAggregation,
        search_space: &SfSearchSpace,
        rnti: Rnti,
    ) -> (r: Result<u8, AllocationError>)
        requires
            old(self).wf(),
        ensures
            final(self).wf(),
            final(self).cfi().spec_index() >= old(self).cfi().spec_index(),
            old(self).is_sure_to_place(aggregation_level, *search_space) ==> r is Ok,
            exists|first: Seq<usize>|
                first.len() == 3 && #[trigger] final(self).is_allocation_on(
                    old(self),
                    r,
                    first,
                    aggregation_level,
                    *search_space,
                    rnti,
                ),
    {
        let ghost before = *self;
        let (r, Ghost(first)) = self.allocate(aggregation_level, search_space, rnti, None);
        proof {
            lemma_allocation_whatever_the_starts(
                &before,
                self,
                r,
                first,
                aggregation_level,
                *search_space,
                rnti,
            );
        }
        r
    }

    /// Places a DCI as `allocate_dci` does, with the probe at the CFI with
    /// index `k` starting at position `first[k]` of the candidates (taken
    /// modulo their number).
    pub fn allocate_dci_from(
        &mut self,
        aggregation_level: PdcchAggregation,
        search_space: &SfSearchSpace,
        rnti: Rnti,
        first: [usize; NUM_OF_CFI],
    ) -> (r: Result<u8, AllocationError>)
        requires
            old(self).wf(),
        ensures
            final(self).wf(),
            final(self).cfi().spec_index() >= old(self).cfi().spec_index(),
            final(self).is_allocation_on(
                old(self),
                r,
                first@,
                aggregation_level,
                *search_space,
                rnti,
            ),
    {
        let (r, Ghost(used)) = self.allocate(aggregation_level, search_space, rnti, Some(first));
        r
    }

    /// The DCIs placed at the CFI in use, the CCEs that they occupy, and
    /// that CFI. The DCIs answer the requests that they were placed for,
    /// lie within the CCEs of the CFI and share no CCE; the mask marks
    /// exactly their CCEs, as many as their sizes add up to.
    pub fn get_allocs(&self) -> (r: (BoundedVec<PdcchAllocation, MAX_PDCCH>, CceMask, Cfi))
        requires
            self.wf(),
        ensures
            r.2 == self.cfi(),
            r.0@ == self.engine(r.2.spec_index() as int).allocations(),
            r.0.wf(),
            r.1@ == self.engine(r.2.spec_index() as int).mask(),
            r.1.spec_size() == self.engine(r.2.spec_index() as int).spec_cce_count(),
            is_assignment(
                placements_of(r.0@),
                self.engine(r.2.spec_index() as int).requests(),
                self.engine(r.2.spec_index() as int).spec_cce_count() as int,
            ),
            r.1@ == occupied(placements_of(r.0@)),
            r.1@.len() == total_size(placements_of(r.0@)),
    {
        let (allocation_buffer, total_mask) =
            self.allocation_buffer[self.current_cfi.index()].get_allocs();
        proof {
            lemma_occupied_count(placements_of(allocation_buffer@));
        }
        (allocation_buffer, total_mask, self.current_cfi)
    }
}

/// Starting a new TTI twice in a row leaves the allocator as starting it
/// once does.
pub proof fn lemma_new_tti_idempotent(
    before: PdcchSchedShuffling,
    once: PdcchSchedShuffling,
    twice: PdcchSchedShuffling,
)
    requires
        once.is_new_tti_of(&before),
        twice.is_new_tti_of(&once),
    ensures
        twice.same_state(&once),
{
}

/// Where the draws do not matter: a DCI is placed when an engine from the
/// CFI in use upwards is sure to place it.
pub proof fn lemma_allocation_whatever_the_starts(
    before: &PdcchSchedShuffling,
    after: &PdcchSchedShuffling,
    result: Result<u8, AllocationError>,
    first: Seq<usize>,
    level: PdcchAggregation,
    search_space: SfSearchSpace,
    rnti: Rnti,
)
    requires
        first.len() == 3,
        after.is_allocation_on(before, result, first, level, search_space, rnti),
    ensures
        before.is_sure_to_place(level, search_space) ==> result is Ok,
{
    let start = before.cfi().spec_index() as int;
    let end = after.cfi().spec_index() as int;
    assert forall|k: int|
        start <= k <= end && is_placeable(
            &before.engine(k),
            level,
            search_space@[k]@[level.spec_index() as int]@,
        ) implies k == end && result is Ok by {
        let engine_before = before.engine(k);
        let engine_after = after.engine(k);
        lemma_attempt_whatever_the_start(
            &engine_before,
            &engine_after,
            k == end && result is Ok,
            first[k] as int,
            level,
            search_space@[k]@[level.spec_index() as int]@,
            rnti,
        );
    }
    if before.is_sure_to_place(level, search_space) {
        let k = choose|k: int|
            before.cfi().spec_index() <= k < 3 && is_placeable(
                &#[trigger] before.engine(k),
                level,
                search_space@[k]@[level.spec_index() as int]@,
            );
        if result is Err {
            assert(end == 2);
        }
    }
}

} // verus!
