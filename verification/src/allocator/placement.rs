//! What it means for a set of DCIs to be placed: the mathematical model that
//! the contracts of the three allocators share.

use crate::allocator::structures::PdcchAggregation;
use crate::types::rnti::Rnti;
use vstd::prelude::*;
use vstd::set_lib::*;

verus! {

/// A DCI at its place: the level, the first CCE and the recipient.
pub struct Placement {
    pub level: PdcchAggregation,
    pub start_cce: u8,
    pub rnti: Rnti,
}

/// A DCI to be placed: the level, the start CCEs that the recipient
/// monitors at that level, and the recipient.
pub struct DciRequest {
    pub level: PdcchAggregation,
    pub candidates: Seq<u8>,
    pub rnti: Rnti,
}

impl Placement {
    /// One past the last CCE that the DCI occupies.
    pub open spec fn end(self) -> int {
        self.start_cce + self.level.spec_size()
    }

    /// The CCEs that the DCI occupies.
    pub open spec fn cces(self) -> Set<int> {
        set_int_range(self.start_cce as int, self.end())
    }

    /// The DCI lies within the first `cce_count` CCEs.
    pub open spec fn within(self, cce_count: int) -> bool {
        self.end() <= cce_count
    }

    /// The two DCIs share a CCE.
    pub open spec fn overlaps(self, other: Placement) -> bool {
        self.start_cce < other.end() && other.start_cce < self.end()
    }

    /// The DCI is the one asked for, at one of the places asked for.
    pub open spec fn answers(self, request: DciRequest) -> bool {
        &&& self.level == request.level
        &&& self.rnti == request.rnti
        &&& request.candidates.contains(self.start_cce)
    }
}

/// No two of the placements share a CCE.
pub open spec fn pairwise_disjoint(placements: Seq<Placement>) -> bool {
    forall|i: int, j: int|
        0 <= i < j < placements.len() ==> !(#[trigger] placements[i]).overlaps(
            #[trigger] placements[j],
        )
}

/// Every placement lies within the first `cce_count` CCEs.
pub open spec fn all_within(placements: Seq<Placement>, cce_count: int) -> bool {
    forall|i: int| 0 <= i < placements.len() ==> (#[trigger] placements[i]).within(cce_count)
}

/// Placement `i` answers request `i`, for every `i`.
pub open spec fn answers_all(placements: Seq<Placement>, requests: Seq<DciRequest>) -> bool {
    &&& placements.len() == requests.len()
    &&& forall|i: int| 0 <= i < placements.len() ==> (#[trigger] placements[i]).answers(requests[i])
}

/// The placements answer the requests, lie within the first `cce_count`
/// CCEs and share no CCE.
pub open spec fn is_assignment(
    placements: Seq<Placement>,
    requests: Seq<DciRequest>,
    cce_count: int,
) -> bool {
    &&& answers_all(placements, requests)
    &&& all_within(placements, cce_count)
    &&& pairwise_disjoint(placements)
}

/// The CCEs that the placements occupy.
pub open spec fn occupied(placements: Seq<Placement>) -> Set<int> {
    Set::new(
        |c: int| exists|i: int| 0 <= i < placements.len() && (#[trigger] placements[i]).cces().contains(c),
    )
}

/// The sum of the sizes of the placements.
pub open spec fn total_size(placements: Seq<Placement>) -> nat
    decreases placements.len(),
{
    if placements.len() == 0 {
        0
    } else {
        total_size(placements.drop_last()) + placements.last().level.spec_size() as nat
    }
}

/// Two DCIs overlap exactly when their CCE sets meet.
pub proof fn lemma_overlap_is_intersection(p: Placement, q: Placement)
    ensures
        p.overlaps(q) <==> !p.cces().disjoint(q.cces()),
{
    if p.overlaps(q) {
        let c: int = if p.start_cce >= q.start_cce {
            p.start_cce as int
        } else {
            q.start_cce as int
        };
        assert(p.cces().contains(c) && q.cces().contains(c));
    }
}

/// No placement occupies a CCE of an empty list.
pub proof fn lemma_occupied_empty()
    ensures
        occupied(Seq::<Placement>::empty()) == Set::<int>::empty(),
{
    assert(occupied(Seq::<Placement>::empty()) =~= Set::<int>::empty());
}

/// One more placement adds its CCEs to the occupied ones.
pub proof fn lemma_occupied_push(placements: Seq<Placement>, p: Placement)
    ensures
        occupied(placements.push(p)) == occupied(placements).union(p.cces()),
{
    let more = placements.push(p);
    assert forall|c: int| occupied(more).contains(c) <==> occupied(placements).union(
        p.cces(),
    ).contains(c) by {
        if occupied(more).contains(c) {
            let i = choose|i: int| 0 <= i < more.len() && (#[trigger] more[i]).cces().contains(c);
            if i < placements.len() {
                assert(placements[i].cces().contains(c));
            }
        }
        if occupied(placements).contains(c) {
            let i = choose|i: int|
                0 <= i < placements.len() && (#[trigger] placements[i]).cces().contains(c);
            assert(more[i].cces().contains(c));
        }
        if p.cces().contains(c) {
            assert(more[placements.len() as int].cces().contains(c));
        }
    }
    assert(occupied(more) =~= occupied(placements).union(p.cces()));
}

/// A placement that meets none of the occupied CCEs overlaps no placement.
pub proof fn lemma_free_overlaps_none(placements: Seq<Placement>, p: Placement)
    ensures
        p.cces().disjoint(occupied(placements)) <==> forall|i: int|
            0 <= i < placements.len() ==> !p.overlaps(#[trigger] placements[i]),
{
    if p.cces().disjoint(occupied(placements)) {
        assert forall|i: int| 0 <= i < placements.len() implies !p.overlaps(
            #[trigger] placements[i],
        ) by {
            lemma_overlap_is_intersection(p, placements[i]);
            if p.overlaps(placements[i]) {
                let c = choose|c: int| p.cces().contains(c) && placements[i].cces().contains(c);
                assert(occupied(placements).contains(c));
            }
        }
    }
    if forall|i: int| 0 <= i < placements.len() ==> !p.overlaps(#[trigger] placements[i]) {
        assert forall|c: int| !(p.cces().contains(c) && occupied(placements).contains(c)) by {
            if p.cces().contains(c) && occupied(placements).contains(c) {
                let i = choose|i: int|
                    0 <= i < placements.len() && (#[trigger] placements[i]).cces().contains(c);
                lemma_overlap_is_intersection(p, placements[i]);
            }
        }
    }
}

/// Disjoint placements stay disjoint when one is added that overlaps none.
pub proof fn lemma_disjoint_push(placements: Seq<Placement>, p: Placement)
    requires
        pairwise_disjoint(placements),
        forall|i: int| 0 <= i < placements.len() ==> !p.overlaps(#[trigger] placements[i]),
    ensures
        pairwise_disjoint(placements.push(p)),
{
    let more = placements.push(p);
    assert forall|i: int, j: int| 0 <= i < j < more.len() implies !(#[trigger] more[i]).overlaps(
        #[trigger] more[j],
    ) by {
        if j == placements.len() {
            assert(!p.overlaps(placements[i]));
        } else {
            assert(!placements[i].overlaps(placements[j]));
        }
    }
}

/// Placements that share no CCE occupy as many CCEs as their sizes add up to.
pub proof fn lemma_occupied_count(placements: Seq<Placement>)
    requires
        pairwise_disjoint(placements),
    ensures
        occupied(placements).finite(),
        occupied(placements).len() == total_size(placements),
    decreases placements.len(),
{
    if placements.len() == 0 {
        assert(placements =~= Seq::<Placement>::empty());
        lemma_occupied_empty();
    } else {
        let rest = placements.drop_last();
        let p = placements.last();
        assert(placements =~= rest.push(p));
        assert(pairwise_disjoint(rest)) by {
            assert forall|i: int, j: int| 0 <= i < j < rest.len() implies !(
            #[trigger] rest[i]).overlaps(#[trigger] rest[j]) by {
                assert(!placements[i].overlaps(placements[j]));
            }
        }
        lemma_occupied_count(rest);
        lemma_occupied_push(rest, p);
        lemma_int_range(p.start_cce as int, p.end());
        assert(p.cces().disjoint(occupied(rest))) by {
            assert forall|i: int| 0 <= i < rest.len() implies !p.overlaps(#[trigger] rest[i]) by {
                assert(!placements[i].overlaps(placements[placements.len() - 1]));
            }
            lemma_free_overlaps_none(rest, p);
        }
        lemma_set_disjoint_lens(occupied(rest), p.cces());
    }
}

} // verus!
