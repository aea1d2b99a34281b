//! The exhaustive allocator: it keeps every way of placing the DCIs of a
//! TTI, as the leaves of a tree, and so places a DCI whenever there is a way.

use crate::allocator::placement::{
    is_assignment, lemma_disjoint_push, lemma_free_overlaps_none,
    lemma_occupied_count, lemma_occupied_empty, lemma_occupied_push, occupied,
    total_size, DciRequest, Placement,
};
use crate::allocator::structures::{
    CceCountTable, CceMask, CcePositions, CfiSearchSpace, PdcchAggregation, SfSearchSpace,
    MAX_PDCCH,
};
use crate::defines::NUM_OF_CFI;
use crate::signalling::structs::{AllocationError, AllocationResult};
use crate::types::bounded_vec::BoundedVec;
use crate::types::cfi::Cfi;
use crate::types::rnti::Rnti;
use vstd::prelude::*;
use vstd::set_lib::*;

verus! {

/// Largest number of nodes that a tree holds.
pub const NODE_CAPACITY: usize = 33_554_432;

/// A placed DCI, with the CCEs that it occupies and those that it and the
/// DCIs placed before it occupy together.
#[derive(Clone, Copy, Debug, Default)]
pub struct PdcchAlloc {
    pub aggregation_level: PdcchAggregation,
    pub start_cce: u8,
    pub rnti: Rnti,
    mask: CceMask,
    total_mask: CceMask,
}

impl PdcchAlloc {
    pub closed spec fn placement(&self) -> Placement {
        Placement { level: self.aggregation_level, start_cce: self.start_cce, rnti: self.rnti }
    }

    /// The CCEs that the mask of the DCI marks.
    pub closed spec fn mask_cces(&self) -> Set<int> {
        self.mask@
    }

    /// The CCEs that the cumulative mask of the DCI marks.
    pub closed spec fn total_cces(&self) -> Set<int> {
        self.total_mask@
    }

    /// The placement of the DCI, for code that sees only the public fields.
    pub fn to_placement(&self) -> (r: Placement)
        ensures
            r == self.placement(),
    {
        Placement { level: self.aggregation_level, start_cce: self.start_cce, rnti: self.rnti }
    }
}

/// The placements of a list of allocations.
pub open spec fn placements_of(allocations: Seq<PdcchAlloc>) -> Seq<Placement> {
    Seq::new(allocations.len(), |i: int| allocations[i].placement())
}

/// A node of the tree: the index of its parent, if it has one, and the DCI
/// that it places.
pub type Node = (Option<usize>, PdcchAlloc);

/// The placements on the way from the root to node `i`, the root's first.
spec fn path(nodes: Seq<Node>, i: int) -> Seq<Placement>
    decreases i,
{
    if i < 0 || i >= nodes.len() {
        Seq::empty()
    } else {
        let here = nodes[i].1.placement();
        match nodes[i].0 {
            Some(p) => if p < i {
                path(nodes, p as int).push(here)
            } else {
                seq![here]
            },
            None => seq![here],
        }
    }
}

/// `k` is the number of candidates before the first one at which a DCI of
/// `level` would not end within the first `cce_count` CCEs.
pub open spec fn is_usable_len(
    candidates: Seq<u8>,
    level: PdcchAggregation,
    cce_count: int,
    k: int,
) -> bool {
    &&& 0 <= k <= candidates.len()
    &&& forall|j: int| 0 <= j < k ==> #[trigger] candidates[j] + level.spec_size() <= cce_count
    &&& k < candidates.len() ==> candidates[k] + level.spec_size() > cce_count
}

/// The candidates that the tree uses: those before the first one at which
/// a DCI of `level` would not end within the first `cce_count` CCEs.
pub open spec fn usable(candidates: Seq<u8>, level: PdcchAggregation, cce_count: int) -> Seq<u8> {
    candidates.take(choose|k: int| is_usable_len(candidates, level, cce_count, k))
}

/// The request that the tree records for a DCI.
pub open spec fn request_for(
    level: PdcchAggregation,
    candidates: Seq<u8>,
    rnti: Rnti,
    cce_count: int,
) -> DciRequest {
    DciRequest { level, candidates: usable(candidates, level, cce_count), rnti }
}

/// The placement that answers `request` at its candidate `j`.
pub open spec fn placement_at(request: DciRequest, j: int) -> Placement {
    Placement { level: request.level, start_cce: request.candidates[j], rnti: request.rnti }
}

/// The ways to go on from `placed` with one of the first `m` candidates of
/// `request`, in the order of the candidates: a candidate goes on where it
/// meets no CCE that `placed` occupies.
pub open spec fn children_upto(placed: Seq<Placement>, request: DciRequest, m: int) -> Seq<
    Seq<Placement>,
>
    decreases m,
{
    if m <= 0 {
        Seq::empty()
    } else {
        let before = children_upto(placed, request, m - 1);
        let p = placement_at(request, m - 1);
        if p.cces().disjoint(occupied(placed)) {
            before.push(placed.push(p))
        } else {
            before
        }
    }
}

/// The ways to go on from `placed` with one of the candidates of `request`.
pub open spec fn children(placed: Seq<Placement>, request: DciRequest) -> Seq<Seq<Placement>> {
    children_upto(placed, request, request.candidates.len() as int)
}

/// The ways to go on from one of the first `k` of `paths` with `request`:
/// those from the first path, then those from the second, and so on.
pub open spec fn extended_upto(paths: Seq<Seq<Placement>>, request: DciRequest, k: int) -> Seq<
    Seq<Placement>,
>
    decreases k,
{
    if k <= 0 {
        Seq::empty()
    } else {
        extended_upto(paths, request, k - 1) + children(paths[k - 1], request)
    }
}

/// The ways to go on from one of `paths` with `request`.
pub open spec fn extended(paths: Seq<Seq<Placement>>, request: DciRequest) -> Seq<Seq<Placement>> {
    extended_upto(paths, request, paths.len() as int)
}

/// The first `room` of `paths`, or all of them where they are no more.
pub open spec fn first_of(paths: Seq<Seq<Placement>>, room: int) -> Seq<Seq<Placement>> {
    if paths.len() <= room {
        paths
    } else {
        paths.take(room)
    }
}

/// Every one of `paths` is an assignment of `requests`.
pub open spec fn all_assignments(
    paths: Seq<Seq<Placement>>,
    requests: Seq<DciRequest>,
    cce_count: int,
) -> bool {
    forall|k: int| 0 <= k < paths.len() ==> is_assignment(#[trigger] paths[k], requests, cce_count)
}

/// Every assignment of `requests` is one of `paths`.
pub open spec fn holds_every_assignment(
    paths: Seq<Seq<Placement>>,
    requests: Seq<DciRequest>,
    cce_count: int,
) -> bool {
    forall|placed: Seq<Placement>| #[trigger]
        is_assignment(placed, requests, cce_count) ==> paths.contains(placed)
}

/// Exactly one number is the usable length of a candidate list.
pub proof fn lemma_usable_len_unique(
    candidates: Seq<u8>,
    level: PdcchAggregation,
    cce_count: int,
    k: int,
)
    requires
        is_usable_len(candidates, level, cce_count, k),
    ensures
        usable(candidates, level, cce_count) == candidates.take(k),
        forall|j: int|
            0 <= j < k ==> #[trigger] usable(candidates, level, cce_count)[j] + level.spec_size()
                <= cce_count,
{
    let chosen = choose|k: int| is_usable_len(candidates, level, cce_count, k);
    if chosen < k {
        assert(candidates[chosen] + level.spec_size() <= cce_count);
    } else if k < chosen {
        assert(candidates[k] + level.spec_size() <= cce_count);
    }
    assert forall|j: int| 0 <= j < k implies #[trigger] usable(candidates, level, cce_count)[j]
        + level.spec_size() <= cce_count by {
        assert(candidates[j] + level.spec_size() <= cce_count);
    }
}

/// Each way to go on puts one placement behind `placed`: one that answers
/// the request and meets no CCE that `placed` occupies.
pub proof fn lemma_children_sound(placed: Seq<Placement>, request: DciRequest, m: int, t: int)
    requires
        0 <= m <= request.candidates.len(),
        0 <= t < children_upto(placed, request, m).len(),
    ensures
        exists|j: int|
            0 <= j < m && placement_at(request, j).cces().disjoint(occupied(placed))
                && #[trigger] placed.push(placement_at(request, j)) == children_upto(
                placed,
                request,
                m,
            )[t],
    decreases m,
{
    let before = children_upto(placed, request, m - 1);
    let p = placement_at(request, m - 1);
    if p.cces().disjoint(occupied(placed)) && t == before.len() {
        assert(placed.push(placement_at(request, m - 1)) == children_upto(placed, request, m)[t]);
    } else {
        lemma_children_sound(placed, request, m - 1, t);
        let j = choose|j: int|
            0 <= j < m - 1 && placement_at(request, j).cces().disjoint(occupied(placed))
                && #[trigger] placed.push(placement_at(request, j)) == before[t];
        assert(placed.push(placement_at(request, j)) == children_upto(placed, request, m)[t]);
    }
}

/// Each candidate that meets no CCE that `placed` occupies is a way to go on.
pub proof fn lemma_children_complete(placed: Seq<Placement>, request: DciRequest, m: int, j: int)
    requires
        0 <= j < m <= request.candidates.len(),
        placement_at(request, j).cces().disjoint(occupied(placed)),
    ensures
        children_upto(placed, request, m).contains(placed.push(placement_at(request, j))),
    decreases m,
{
    let before = children_upto(placed, request, m - 1);
    let now = children_upto(placed, request, m);
    let want = placed.push(placement_at(request, j));
    if j == m - 1 {
        assert(now[before.len() as int] == want);
    } else {
        lemma_children_complete(placed, request, m - 1, j);
        let t = choose|t: int| 0 <= t < before.len() && before[t] == want;
        assert(now[t] == want);
    }
}

/// Where each of `paths` is an assignment of `requests`, each way to go on
/// with `request` is an assignment of `requests` and `request`, provided
/// that a DCI fits below `cce_count` at every candidate of `request`.
pub proof fn lemma_extended_sound(
    paths: Seq<Seq<Placement>>,
    requests: Seq<DciRequest>,
    request: DciRequest,
    cce_count: int,
    k: int,
)
    requires
        0 <= k <= paths.len(),
        all_assignments(paths, requests, cce_count),
        forall|j: int|
            0 <= j < request.candidates.len() ==> #[trigger] request.candidates[j]
                + request.level.spec_size() <= cce_count,
    ensures
        all_assignments(extended_upto(paths, request, k), requests.push(request), cce_count),
    decreases k,
{
    if k > 0 {
        lemma_extended_sound(paths, requests, request, cce_count, k - 1);
        let before = extended_upto(paths, request, k - 1);
        let kids = children(paths[k - 1], request);
        let now = extended_upto(paths, request, k);
        assert forall|t: int| 0 <= t < now.len() implies is_assignment(
            #[trigger] now[t],
            requests.push(request),
            cce_count,
        ) by {
            if t >= before.len() {
                let placed = paths[k - 1];
                lemma_children_sound(
                    placed,
                    request,
                    request.candidates.len() as int,
                    t - before.len(),
                );
                let j = choose|j: int|
                    0 <= j < request.candidates.len() && placement_at(request, j).cces().disjoint(
                        occupied(placed),
                    ) && #[trigger] placed.push(placement_at(request, j)) == kids[t - before.len()];
                lemma_assignment_push(placed, requests, request, cce_count, j);
            }
        }
    }
}

/// An assignment stays one when a placement is put behind it that answers
/// the next request, fits below `cce_count` and meets no occupied CCE.
pub proof fn lemma_assignment_push(
    placed: Seq<Placement>,
    requests: Seq<DciRequest>,
    request: DciRequest,
    cce_count: int,
    j: int,
)
    requires
        is_assignment(placed, requests, cce_count),
        0 <= j < request.candidates.len(),
        request.candidates[j] + request.level.spec_size() <= cce_count,
        placement_at(request, j).cces().disjoint(occupied(placed)),
    ensures
        is_assignment(placed.push(placement_at(request, j)), requests.push(request), cce_count),
{
    let p = placement_at(request, j);
    let more = placed.push(p);
    let asked = requests.push(request);
    lemma_free_overlaps_none(placed, p);
    lemma_disjoint_push(placed, p);
    assert(request.candidates.contains(p.start_cce));
    assert forall|i: int| 0 <= i < more.len() implies (#[trigger] more[i]).answers(asked[i]) by {
        if i < placed.len() {
            assert(placed[i].answers(requests[i]));
        }
    }
    assert forall|i: int| 0 <= i < more.len() implies (#[trigger] more[i]).within(cce_count) by {
        if i < placed.len() {
            assert(placed[i].within(cce_count));
        }
    }
}

/// Where `paths` holds every assignment of `requests`, the ways to go on
/// with `request` hold every assignment of `requests` and `request`.
pub proof fn lemma_extended_complete(
    paths: Seq<Seq<Placement>>,
    requests: Seq<DciRequest>,
    request: DciRequest,
    cce_count: int,
)
    requires
        holds_every_assignment(paths, requests, cce_count),
    ensures
        holds_every_assignment(extended(paths, request), requests.push(request), cce_count),
{
    let asked = requests.push(request);
    assert forall|placed: Seq<Placement>| #[trigger]
        is_assignment(placed, asked, cce_count) implies extended(paths, request).contains(
        placed,
    ) by {
        let head = placed.drop_last();
        let p = placed.last();
        assert(placed =~= head.push(p));
        assert(is_assignment(head, requests, cce_count)) by {
            assert forall|i: int| 0 <= i < head.len() implies (#[trigger] head[i]).answers(
                requests[i],
            ) by {
                assert(placed[i].answers(asked[i]));
            }
            assert forall|i: int| 0 <= i < head.len() implies (#[trigger] head[i]).within(
                cce_count,
            ) by {
                assert(placed[i].within(cce_count));
            }
            assert forall|i: int, j: int| 0 <= i < j < head.len() implies !(
            #[trigger] head[i]).overlaps(#[trigger] head[j]) by {
                assert(!placed[i].overlaps(placed[j]));
            }
        }
        assert(paths.contains(head));
        let k = choose|k: int| 0 <= k < paths.len() && paths[k] == head;
        assert(placed[placed.len() - 1].answers(asked[placed.len() - 1]));
        let j = choose|j: int| 0 <= j < request.candidates.len() && request.candidates[j] == p.start_cce;
        assert(p == placement_at(request, j));
        assert(p.cces().disjoint(occupied(head))) by {
            assert forall|i: int| 0 <= i < head.len() implies !p.overlaps(#[trigger] head[i]) by {
                assert(!placed[i].overlaps(placed[placed.len() - 1]));
            }
            lemma_free_overlaps_none(head, p);
        }
        lemma_children_complete(head, request, request.candidates.len() as int, j);
        lemma_extended_holds_children(paths, request, paths.len() as int, k, placed);
    }
}

proof fn lemma_extended_holds_children(
    paths: Seq<Seq<Placement>>,
    request: DciRequest,
    upto: int,
    k: int,
    placed: Seq<Placement>,
)
    requires
        0 <= k < upto <= paths.len(),
        children(paths[k], request).contains(placed),
    ensures
        extended_upto(paths, request, upto).contains(placed),
    decreases upto,
{
    let before = extended_upto(paths, request, upto - 1);
    let now = extended_upto(paths, request, upto);
    if k == upto - 1 {
        let kids = children(paths[k], request);
        let t = choose|t: int| 0 <= t < kids.len() && kids[t] == placed;
        assert(now[before.len() + t] == placed);
    } else {
        lemma_extended_holds_children(paths, request, upto - 1, k, placed);
        let t = choose|t: int| 0 <= t < before.len() && before[t] == placed;
        assert(now[t] == placed);
    }
}

proof fn lemma_path_prefix(a: Seq<Node>, b: Seq<Node>, i: int)
    requires
        0 <= i < a.len() <= b.len(),
        forall|j: int| 0 <= j <= i ==> a[j] == b[j],
    ensures
        path(a, i) == path(b, i),
    decreases i,
{
    match a[i].0 {
        Some(p) => {
            if p < i {
                lemma_path_prefix(a, b, p as int);
            }
        },
        None => {},
    }
}

/// The ways to go on with fewer candidates come first among those with more.
proof fn lemma_children_prefix(placed: Seq<Placement>, request: DciRequest, m: int, more: int)
    requires
        0 <= m <= more,
    ensures
        children_upto(placed, request, m).len() <= children_upto(placed, request, more).len(),
        children_upto(placed, request, more).take(children_upto(placed, request, m).len() as int)
            == children_upto(placed, request, m),
    decreases more - m,
{
    if m < more {
        lemma_children_prefix(placed, request, m, more - 1);
        let small = children_upto(placed, request, m);
        let mid = children_upto(placed, request, more - 1);
        let big = children_upto(placed, request, more);
        assert(big.take(small.len() as int) =~= mid.take(small.len() as int));
    } else {
        let all = children_upto(placed, request, m);
        assert(all.take(all.len() as int) =~= all);
    }
}

/// Cutting a list that is made of two is cutting the first and then, with
/// the room that is left, the second.
proof fn lemma_first_of_concat(a: Seq<Seq<Placement>>, b: Seq<Seq<Placement>>, room: int)
    requires
        0 <= room,
    ensures
        first_of(a + b, room) == first_of(a, room) + first_of(b, room - first_of(a, room).len()),
{
    assert(first_of(a + b, room) =~= first_of(a, room) + first_of(
        b,
        room - first_of(a, room).len(),
    ));
}

/// No DCI asked for, one assignment: the empty one.
proof fn lemma_empty_holds_every_assignment(cce_count: int)
    ensures
        holds_every_assignment(
            seq![Seq::<Placement>::empty()],
            Seq::<DciRequest>::empty(),
            cce_count,
        ),
        all_assignments(seq![Seq::<Placement>::empty()], Seq::<DciRequest>::empty(), cce_count),
{
    let paths = seq![Seq::<Placement>::empty()];
    assert forall|placed: Seq<Placement>| #[trigger]
        is_assignment(placed, Seq::<DciRequest>::empty(), cce_count) implies paths.contains(
        placed,
    ) by {
        assert(placed =~= Seq::<Placement>::empty());
        assert(paths[0] == placed);
    }
}

/// Number of candidates before the first one at which a DCI of `level`
/// would not end within the first `cce_count` CCEs.
fn count_usable(candidates: &CcePositions, level: PdcchAggregation, cce_count: u8) -> (k: usize)
    ensures
        is_usable_len(candidates@, level, cce_count as int, k as int),
        usable(candidates@, level, cce_count as int) == candidates@.take(k as int),
        forall|j: int|
            0 <= j < k ==> #[trigger] usable(candidates@, level, cce_count as int)[j]
                + level.spec_size() <= cce_count,
{
    let size: usize = level.size();
    let mut k: usize = 0;
    while k < candidates.len() && *candidates.index(k) as usize + size <= cce_count as usize
        invariant
            k <= candidates@.len(),
            size == level.spec_size(),
            forall|j: int| 0 <= j < k ==> #[trigger] candidates@[j] + level.spec_size() <= cce_count,
        decreases candidates@.len() - k,
    {
        k += 1;
    }
    proof {
        lemma_usable_len_unique(candidates@, level, cce_count as int, k as int);
    }
    k
}

spec fn node_ok(nodes: Seq<Node>, i: int, cce_count: int) -> bool {
    let node = nodes[i].1;
    &&& nodes[i].0 matches Some(p) ==> p < i
    &&& node.mask.spec_size() == cce_count
    &&& node.total_mask.spec_size() == cce_count
    &&& node.mask@ == node.placement().cces()
    &&& node.total_mask@ == occupied(path(nodes, i))
}

spec fn nodes_ok(nodes: Seq<Node>, cce_count: int) -> bool {
    forall|i: int| 0 <= i < nodes.len() ==> #[trigger] node_ok(nodes, i, cce_count)
}

/// The placement engine of one CFI that keeps every way of placing its DCIs.
#[derive(Clone)]
pub struct AllocationTree {
    cce_count: u8,
    alloc_count: usize,
    /// The nodes, each with the index of its parent.
    allocation_buffer: BoundedVec<Node, NODE_CAPACITY>,
    /// The nodes of the lowest layer: those from `layer_start` to before `layer_end`.
    layer_start: usize,
    layer_end: usize,
    requests: Ghost<Seq<DciRequest>>,
}

impl AllocationTree {
    /// Number of CCEs of the CFI that the engine serves.
    pub closed spec fn spec_cce_count(&self) -> u8 {
        self.cce_count
    }

    /// Number of DCIs placed since the last reset.
    pub closed spec fn depth(&self) -> nat {
        self.alloc_count as nat
    }

    /// Number of nodes in use.
    pub closed spec fn node_count(&self) -> nat {
        self.allocation_buffer@.len()
    }

    /// The requests of the DCIs placed since the last reset, in order.
    pub closed spec fn requests(&self) -> Seq<DciRequest> {
        self.requests@
    }

    /// The ways of placing the DCIs that the tree holds: one for each node
    /// of its lowest layer, in the order of the nodes. Where no DCI is
    /// placed, the one way is to place none.
    pub closed spec fn paths(&self) -> Seq<Seq<Placement>> {
        if self.alloc_count == 0 {
            seq![Seq::<Placement>::empty()]
        } else {
            Seq::new(
                (self.layer_end - self.layer_start) as nat,
                |t: int| path(self.allocation_buffer@, self.layer_start + t),
            )
        }
    }

    /// The node buffer is sound, whatever the layer bounds say.
    closed spec fn growing(&self) -> bool {
        &&& self.allocation_buffer@.len() <= NODE_CAPACITY
        &&& nodes_ok(self.allocation_buffer@, self.cce_count as int)
    }

    /// The node buffer and the bounds of the lowest layer agree.
    pub closed spec fn inv(&self) -> bool {
        &&& self.growing()
        &&& self.layer_start <= self.layer_end == self.allocation_buffer@.len()
        &&& self.alloc_count == self.requests@.len()
        &&& self.alloc_count == 0 ==> self.layer_end == 0
        &&& self.alloc_count > 0 ==> self.layer_start < self.layer_end
    }

    /// The engine is consistent: it holds at least one way of placing its
    /// DCIs, at most `MAX_PDCCH` of them, and every way that it holds
    /// answers the requests, lies within the CCEs of the CFI and lets no
    /// two DCIs share a CCE.
    pub open spec fn wf(&self) -> bool {
        &&& self.inv()
        &&& self.depth() == self.requests().len()
        &&& self.depth() <= MAX_PDCCH
        &&& self.node_count() <= NODE_CAPACITY
        &&& self.paths().len() >= 1
        &&& all_assignments(self.paths(), self.requests(), self.spec_cce_count() as int)
    }

    /// The engine holds no DCI.
    pub open spec fn is_empty(&self) -> bool {
        &&& self.depth() == 0
        &&& self.node_count() == 0
        &&& self.requests() == Seq::<DciRequest>::empty()
        &&& self.paths() == seq![Seq::<Placement>::empty()]
    }

    /// The two engines serve the same CFI and hold the same ways of placing
    /// the same DCIs.
    pub open spec fn same_as(&self, other: &AllocationTree) -> bool {
        &&& self.spec_cce_count() == other.spec_cce_count()
        &&& self.depth() == other.depth()
        &&& self.node_count() == other.node_count()
        &&& self.requests() == other.requests()
        &&& self.paths() == other.paths()
    }

    /// The engine holds every way of placing its DCIs.
    pub open spec fn is_complete(&self) -> bool {
        holds_every_assignment(self.paths(), self.requests(), self.spec_cce_count() as int)
    }

    /// The DCIs of the engine and one more of `level` for `rnti` can be
    /// placed together: an assignment of their requests exists.
    pub open spec fn admits(&self, level: PdcchAggregation, candidates: Seq<u8>, rnti: Rnti) -> bool {
        exists|assignment: Seq<Placement>| #[trigger]
            is_assignment(
                assignment,
                self.requests().push(
                    request_for(level, candidates, rnti, self.spec_cce_count() as int),
                ),
                self.spec_cce_count() as int,
            )
    }

    /// The node buffer has room for every way to go on with one more DCI of
    /// `level` for `rnti`.
    pub open spec fn has_room_for(
        &self,
        level: PdcchAggregation,
        candidates: Seq<u8>,
        rnti: Rnti,
    ) -> bool {
        extended(
            self.paths(),
            request_for(level, candidates, rnti, self.spec_cce_count() as int),
        ).len() <= NODE_CAPACITY - self.node_count()
    }

    /// What an attempt to place a DCI makes of the engine `before`. Each way
    /// of placing the earlier DCIs is extended by each usable candidate
    /// that meets none of its CCEs; of the ways that result, as many are
    /// kept as there is room for nodes. The attempt succeeds exactly when
    /// the engine holds fewer than `MAX_PDCCH` DCIs and a way is kept; else
    /// nothing changes.
    pub open spec fn is_attempt_on(
        &self,
        before: &AllocationTree,
        placed: bool,
        level: PdcchAggregation,
        candidates: Seq<u8>,
        rnti: Rnti,
    ) -> bool {
        let request = request_for(level, candidates, rnti, before.spec_cce_count() as int);
        let kept = first_of(
            extended(before.paths(), request),
            NODE_CAPACITY - before.node_count(),
        );
        &&& placed <==> before.depth() < MAX_PDCCH && kept.len() > 0
        &&& placed ==> {
            &&& self.spec_cce_count() == before.spec_cce_count()
            &&& self.depth() == before.depth() + 1
            &&& self.node_count() == before.node_count() + kept.len()
            &&& self.requests() == before.requests().push(request)
            &&& self.paths() == kept
        }
        &&& !placed ==> self.same_as(before)
    }

    /// The engine for a CFI with `cce_count` CCEs, holding no DCI.
    pub fn new(cce_count: u8) -> (r: AllocationTree)
        ensures
            r.wf(),
            r.is_empty(),
            r.is_complete(),
            r.spec_cce_count() == cce_count,
    {
        let r = AllocationTree {
            cce_count,
            alloc_count: 0,
            allocation_buffer: BoundedVec::new(),
            layer_start: 0,
            layer_end: 0,
            requests: Ghost(Seq::empty()),
        };
        proof {
            lemma_empty_holds_every_assignment(cce_count as int);
        }
        r
    }

    /// Forgets every DCI.
    pub fn reset(&mut self)
        ensures
            final(self).wf(),
            final(self).is_empty(),
            final(self).is_complete(),
            final(self).spec_cce_count() == old(self).spec_cce_count(),
    {
        self.alloc_count = 0;
        self.allocation_buffer.clear();
        self.layer_start = 0;
        self.layer_end = 0;
        self.requests = Ghost(Seq::empty());
        proof {
            lemma_empty_holds_every_assignment(self.cce_count as int);
        }
    }

    /// The placements on the way to the node `parent_idx`; none for `None`.
    closed spec fn placed_at(&self, parent_idx: Option<usize>) -> Seq<Placement> {
        match parent_idx {
            Some(i) => path(self.allocation_buffer@, i as int),
            None => Seq::empty(),
        }
    }

    /// Gives the node `parent_idx`, or the tree where it is `None`, a child
    /// for each usable candidate that meets no CCE occupied on the way to
    /// that node, as far as there is room for nodes. Fails where a
    /// candidate was not usable or the room did not suffice.
    fn try_single_alloc(
        &mut self,
        parent_idx: Option<usize>,
        aggregation_level: PdcchAggregation,
        search_space: &CfiSearchSpace,
        rnti: Rnti,
    ) -> (r: Result<(), ()>)
        requires
            old(self).growing(),
            parent_idx matches Some(i) ==> i < old(self).node_count(),
        ensures
            final(self).growing(),
            final(self).cce_count == old(self).cce_count,
            final(self).alloc_count == old(self).alloc_count,
            final(self).layer_start == old(self).layer_start,
            final(self).layer_end == old(self).layer_end,
            final(self).requests == old(self).requests,
            ({
                let candidates = search_space@[aggregation_level.spec_index() as int]@;
                let request = request_for(
                    aggregation_level,
                    candidates,
                    rnti,
                    old(self).cce_count as int,
                );
                let kids = children(old(self).placed_at(parent_idx), request);
                let kept = first_of(kids, NODE_CAPACITY - old(self).node_count());
                let base = old(self).node_count() as int;
                &&& final(self).node_count() == base + kept.len()
                &&& forall|i: int|
                    0 <= i < base ==> final(self).allocation_buffer@[i] == old(self).allocation_buffer@[i]
                &&& forall|t: int|
                    0 <= t < kept.len() ==> path(final(self).allocation_buffer@, base + t)
                        == #[trigger] kept[t]
                &&& r is Ok <==> request.candidates.len() == candidates.len() && kids.len()
                    <= NODE_CAPACITY - base
            }),
    {
        let candidates = &search_space[aggregation_level.index()];
        let usable_count: usize = count_usable(candidates, aggregation_level, self.cce_count);
        let size: usize = aggregation_level.size();
        let ghost request = request_for(aggregation_level, candidates@, rnti, self.cce_count as int);
        let ghost placed = self.placed_at(parent_idx);
        let ghost start_nodes = self.allocation_buffer@;
        let ghost base = start_nodes.len() as int;
        let cum_mask = match parent_idx {
            Some(index) => {
                assert(node_ok(self.allocation_buffer@, index as int, self.cce_count as int));
                self.allocation_buffer.index(index).1.total_mask
            },
            None => {
                proof {
                    lemma_occupied_empty();
                }
                CceMask::new(self.cce_count as usize)
            },
        };
        let mut m: usize = 0;
        while m < usable_count
            invariant
                m <= usable_count <= candidates@.len(),
                candidates@ == search_space@[aggregation_level.spec_index() as int]@,
                size == aggregation_level.spec_size(),
                request == request_for(aggregation_level, candidates@, rnti, self.cce_count as int),
                request.candidates == candidates@.take(usable_count as int),
                forall|j: int|
                    0 <= j < usable_count ==> #[trigger] request.candidates[j]
                        + aggregation_level.spec_size() <= self.cce_count,
                self.growing(),
                self.cce_count == old(self).cce_count,
                self.alloc_count == old(self).alloc_count,
                self.layer_start == old(self).layer_start,
                self.layer_end == old(self).layer_end,
                self.requests == old(self).requests,
                start_nodes == old(self).allocation_buffer@,
                base == start_nodes.len(),
                parent_idx matches Some(i) ==> i < base,
                placed == old(self).placed_at(parent_idx),
                cum_mask@ == occupied(placed),
                cum_mask.spec_size() == self.cce_count,
                self.allocation_buffer@.len() == base + children_upto(placed, request, m as int).len(),
                forall|i: int| 0 <= i < base ==> self.allocation_buffer@[i] == start_nodes[i],
                forall|t: int|
                    0 <= t < children_upto(placed, request, m as int).len() ==> path(
                        self.allocation_buffer@,
                        base + t,
                    ) == #[trigger] children_upto(placed, request, m as int)[t],
            decreases usable_count - m,
        {
            let start_cce: u8 = *candidates.index(m);
            let ghost p = placement_at(request, m as int);
            let ghost kids = children_upto(placed, request, m as int);
            assert(request.candidates[m as int] == start_cce);
            assert(request.candidates[m as int] + aggregation_level.spec_size() <= self.cce_count);
            let mut alloc_mask = CceMask::new(self.cce_count as usize);
            let filled = alloc_mask.fill(start_cce as usize, size, true);
            assert(filled is Ok);
            assert(alloc_mask@ =~= p.cces());
            let meeting = alloc_mask.intersection(&cum_mask);
            if !meeting.any() {
                proof {
                    assert(p.cces().disjoint(occupied(placed))) by {
                        assert forall|c: int| !(p.cces().contains(c) && occupied(placed).contains(
                            c,
                        )) by {
                            if p.cces().contains(c) && occupied(placed).contains(c) {
                                assert(meeting@.contains(c));
                            }
                        }
                    }
                    lemma_occupied_push(placed, p);
                }
                let alloc = PdcchAlloc {
                    aggregation_level,
                    start_cce,
                    rnti,
                    mask: alloc_mask,
                    total_mask: alloc_mask.union(&cum_mask),
                };
                let ghost nodes_before = self.allocation_buffer@;
                let pushed = self.allocation_buffer.push((parent_idx, alloc));
                if pushed.is_err() {
                    proof {
                        let all = children(placed, request);
                        let next = children_upto(placed, request, m + 1);
                        lemma_children_prefix(placed, request, m as int, usable_count as int);
                        lemma_children_prefix(placed, request, m + 1, usable_count as int);
                        assert(next.len() == kids.len() + 1);
                        assert(first_of(all, NODE_CAPACITY - base) == kids);
                    }
                    return Err(());
                }
                proof {
                    let nodes_after = self.allocation_buffer@;
                    let fresh = nodes_before.len() as int;
                    assert(nodes_after == nodes_before.push((parent_idx, alloc)));
                    assert forall|i: int| 0 <= i < nodes_after.len() implies #[trigger] node_ok(
                        nodes_after,
                        i,
                        self.cce_count as int,
                    ) by {
                        if i < fresh {
                            assert(node_ok(nodes_before, i, self.cce_count as int));
                            lemma_path_prefix(nodes_before, nodes_after, i);
                        } else {
                            match parent_idx {
                                Some(index) => {
                                    lemma_path_prefix(start_nodes, nodes_after, index as int);
                                    assert(path(nodes_after, i) == placed.push(p));
                                },
                                None => {
                                    assert(path(nodes_after, i) =~= placed.push(p));
                                },
                            }
                            assert(alloc.total_mask@ =~= occupied(placed.push(p)));
                        }
                    }
                    let next = children_upto(placed, request, m + 1);
                    assert(next == kids.push(placed.push(p)));
                    assert forall|t: int| 0 <= t < next.len() implies path(nodes_after, base + t)
                        == #[trigger] next[t] by {
                        if t < kids.len() {
                            lemma_path_prefix(nodes_before, nodes_after, base + t);
                            assert(path(nodes_before, base + t) == kids[t]);
                        } else {
                            assert(node_ok(nodes_after, fresh, self.cce_count as int));
                            match parent_idx {
                                Some(index) => {
                                    lemma_path_prefix(start_nodes, nodes_after, index as int);
                                },
                                None => {
                                    assert(path(nodes_after, fresh) =~= placed.push(p));
                                },
                            }
                        }
                    }
                }
            } else {
                proof {
                    let c = choose|c: int| meeting@.contains(c);
                    assert(p.cces().contains(c) && occupied(placed).contains(c));
                    assert(!p.cces().disjoint(occupied(placed)));
                }
            }
            m += 1;
        }
        if usable_count < candidates.len() {
            Err(())
        } else {
            assert(request.candidates.len() == candidates@.len());
            Ok(())
        }
    }

    /// Tries to place a DCI of `level` for `rnti`: each way of placing the
    /// earlier DCIs is extended by each usable candidate that meets none of
    /// its CCEs. Fails, changing nothing, where no way results, or where
    /// the engine holds `MAX_PDCCH` DCIs already.
    pub fn try_alloc(
        &mut self,
        aggregation_level: PdcchAggregation,
        search_space: &CfiSearchSpace,
        rnti: Rnti,
    ) -> (r: Result<(), ()>)
        requires
            old(self).wf(),
        ensures
            final(self).wf(),
            final(self).is_attempt_on(
                old(self),
                r is Ok,
                aggregation_level,
                search_space@[aggregation_level.spec_index() as int]@,
                rnti,
            ),
    {
        if self.alloc_count >= MAX_PDCCH {
            return Err(());
        }
        let ghost before = *self;
        let ghost candidates = search_space@[aggregation_level.spec_index() as int]@;
        let ghost request = request_for(aggregation_level, candidates, rnti, self.cce_count as int);
        let ghost paths = self.paths();
        let ghost start_nodes = self.allocation_buffer@;
        let ghost room = NODE_CAPACITY - start_nodes.len();
        let base: usize = self.allocation_buffer.len();
        if self.alloc_count == 0 {
            let grown = self.try_single_alloc(None, aggregation_level, search_space, rnti);
            proof {
                assert(extended_upto(paths, request, 0) =~= Seq::<Seq<Placement>>::empty());
                assert(extended(paths, request) =~= children(paths[0], request));
            }
        } else {
            let mut i: usize = self.layer_start;
            while i < self.layer_end
                invariant
                    before == *old(self),
                    before.inv(),
                    before.alloc_count > 0,
                    candidates == search_space@[aggregation_level.spec_index() as int]@,
                    request == request_for(
                        aggregation_level,
                        candidates,
                        rnti,
                        before.cce_count as int,
                    ),
                    paths == before.paths(),
                    start_nodes == before.allocation_buffer@,
                    room == NODE_CAPACITY - start_nodes.len(),
                    base == start_nodes.len(),
                    self.growing(),
                    self.cce_count == before.cce_count,
                    self.alloc_count == before.alloc_count,
                    self.layer_start == before.layer_start,
                    self.layer_end == before.layer_end,
                    self.requests == before.requests,
                    self.layer_start <= i <= self.layer_end,
                    forall|j: int| 0 <= j < base ==> self.allocation_buffer@[j] == start_nodes[j],
                    self.allocation_buffer@.len() == base + first_of(
                        extended_upto(paths, request, i - self.layer_start),
                        room,
                    ).len(),
                    forall|t: int|
                        0 <= t < first_of(
                            extended_upto(paths, request, i - self.layer_start),
                            room,
                        ).len() ==> path(self.allocation_buffer@, base + t) == #[trigger] first_of(
                            extended_upto(paths, request, i - self.layer_start),
                            room,
                        )[t],
                decreases self.layer_end - i,
            {
                let ghost k = i - self.layer_start;
                let ghost done = first_of(extended_upto(paths, request, k), room);
                let ghost nodes_before = self.allocation_buffer@;
                proof {
                    lemma_path_prefix(start_nodes, nodes_before, i as int);
                    assert(self.placed_at(Some(i)) == paths[k]);
                }
                let grown = self.try_single_alloc(Some(i), aggregation_level, search_space, rnti);
                proof {
                    let nodes_after = self.allocation_buffer@;
                    let kids = children(paths[k], request);
                    let added = first_of(kids, room - done.len());
                    let next = first_of(extended_upto(paths, request, k + 1), room);
                    lemma_first_of_concat(extended_upto(paths, request, k), kids, room);
                    assert(next == done + added);
                    assert forall|t: int| 0 <= t < next.len() implies path(nodes_after, base + t)
                        == #[trigger] next[t] by {
                        if t < done.len() {
                            lemma_path_prefix(nodes_before, nodes_after, base + t);
                            assert(path(nodes_before, base + t) == done[t]);
                        } else {
                            assert(path(nodes_after, nodes_before.len() + (t - done.len()))
                                == added[t - done.len()]);
                        }
                    }
                }
                i += 1;
            }
        }
        let ghost kept = first_of(extended(paths, request), room);
        assert(self.allocation_buffer@.len() == base + kept.len());
        if self.allocation_buffer.len() == base {
            proof {
                assert(self.allocation_buffer@ =~= start_nodes);
            }
            return Err(());
        }
        self.layer_start = base;
        self.layer_end = self.allocation_buffer.len();
        self.alloc_count += 1;
        self.requests = Ghost(self.requests@.push(request));
        proof {
            assert(self.paths() =~= kept);
            let full = extended(paths, request);
            let n = self.cce_count as int;
            let kept_len = kept.len();
            assert forall|j: int| 0 <= j < request.candidates.len() implies #[trigger] request.candidates[j]
                + request.level.spec_size() <= n by {
                lemma_usable_candidates_fit(candidates, aggregation_level, n, j);
            }
            lemma_extended_sound(paths, before.requests(), request, n, paths.len() as int);
            assert forall|t: int| 0 <= t < kept.len() implies is_assignment(
                #[trigger] kept[t],
                before.requests().push(request),
                n,
            ) by {
                assert(kept[t] == full[t]);
            }
        }
        Ok(())
    }

    /// One way of placing the DCIs, the first that the tree holds, and the
    /// CCEs that it occupies.
    pub fn get_allocs(&self) -> (r: (BoundedVec<PdcchAlloc, MAX_PDCCH>, CceMask))
        requires
            self.wf(),
        ensures
            r.0.wf(),
            placements_of(r.0@) == self.paths()[0],
            r.1@ == occupied(self.paths()[0]),
            r.1.spec_size() == self.spec_cce_count(),
            forall|i: int|
                0 <= i < r.0@.len() ==> (#[trigger] r.0@[i]).mask_cces() == r.0@[i].placement().cces(),
            forall|i: int|
                0 <= i < r.0@.len() ==> (#[trigger] r.0@[i]).total_cces() == occupied(
                    placements_of(r.0@).take(i + 1),
                ),
    {
        if self.alloc_count == 0 {
            let allocs: BoundedVec<PdcchAlloc, MAX_PDCCH> = BoundedVec::new();
            proof {
                lemma_occupied_empty();
                assert(placements_of(allocs@) =~= self.paths()[0]);
            }
            return (allocs, CceMask::new(self.cce_count as usize));
        }
        let ghost nodes = self.allocation_buffer@;
        let ghost leaf = self.layer_start as int;
        let ghost whole = path(nodes, leaf);
        assert(whole == self.paths()[0]);
        assert(node_ok(nodes, leaf, self.cce_count as int));
        let mask = self.allocation_buffer.index(self.layer_start).1.total_mask;
        let mut allocs: BoundedVec<PdcchAlloc, MAX_PDCCH> = BoundedVec::new();
        let mut index: Option<usize> = Some(self.layer_start);
        while index.is_some()
            invariant
                self.growing(),
                nodes == self.allocation_buffer@,
                whole == path(nodes, leaf),
                whole.len() <= MAX_PDCCH,
                allocs.wf(),
                index matches Some(i) ==> i < nodes.len(),
                whole == (match index {
                    Some(i) => path(nodes, i as int),
                    None => Seq::<Placement>::empty(),
                }) + placements_of(allocs@).reverse(),
                forall|i: int|
                    0 <= i < allocs@.len() ==> (#[trigger] allocs@[i]).mask_cces()
                        == allocs@[i].placement().cces(),
                forall|i: int|
                    0 <= i < allocs@.len() ==> (#[trigger] allocs@[i]).total_cces() == occupied(
                        whole.take(whole.len() - i),
                    ),
            decreases
                    (match index {
                        Some(i) => i as int + 1,
                        None => 0,
                    }),
        {
            let at: usize = index.unwrap();
            assert(node_ok(nodes, at as int, self.cce_count as int));
            let (parent, alloc): (Option<usize>, PdcchAlloc) = *self.allocation_buffer.index(at);
            let ghost collected = placements_of(allocs@);
            let ghost upper: Seq<Placement> = match parent {
                Some(p) => path(nodes, p as int),
                None => Seq::<Placement>::empty(),
            };
            proof {
                assert(path(nodes, at as int) =~= upper.push(alloc.placement()));
                assert(whole.len() == upper.len() + 1 + collected.len());
            }
            let ghost held = allocs@;
            let pushed = allocs.push(alloc);
            proof {
                let now = placements_of(allocs@);
                assert(now =~= collected.push(alloc.placement()));
                assert(now.reverse() =~= seq![alloc.placement()] + collected.reverse());
                assert(whole =~= upper + now.reverse());
                assert(whole.take(whole.len() - held.len()) =~= path(nodes, at as int));
                assert forall|i: int| 0 <= i < allocs@.len() implies (
                #[trigger] allocs@[i]).total_cces() == occupied(whole.take(whole.len() - i)) by {
                    if i < held.len() {
                        assert(allocs@[i] == held[i]);
                    }
                }
            }
            index = parent;
        }
        let ordered = allocs.reversed();
        proof {
            assert(placements_of(ordered@) =~= placements_of(allocs@).reverse());
            assert(placements_of(ordered@) =~= whole);
            assert forall|i: int| 0 <= i < ordered@.len() implies (
            #[trigger] ordered@[i]).total_cces() == occupied(
                placements_of(ordered@).take(i + 1),
            ) by {
                assert(ordered@[i] == allocs@[allocs@.len() - 1 - i]);
            }
        }
        (ordered, mask)
    }
}

/// A DCI fits below `cce_count` at every usable candidate.
pub proof fn lemma_usable_candidates_fit(
    candidates: Seq<u8>,
    level: PdcchAggregation,
    cce_count: int,
    j: int,
)
    requires
        0 <= j < usable(candidates, level, cce_count).len(),
    ensures
        usable(candidates, level, cce_count)[j] + level.spec_size() <= cce_count,
{
    lemma_usable_len_exists(candidates, level, cce_count, 0);
    let k = choose|k: int| is_usable_len(candidates, level, cce_count, k);
    assert(candidates[j] + level.spec_size() <= cce_count);
}

/// Every candidate list has a usable length.
proof fn lemma_usable_len_exists(
    candidates: Seq<u8>,
    level: PdcchAggregation,
    cce_count: int,
    from: int,
)
    requires
        0 <= from <= candidates.len(),
        forall|j: int| 0 <= j < from ==> #[trigger] candidates[j] + level.spec_size() <= cce_count,
    ensures
        exists|k: int| is_usable_len(candidates, level, cce_count, k),
    decreases candidates.len() - from,
{
    if from == candidates.len() || candidates[from] + level.spec_size() > cce_count {
        assert(is_usable_len(candidates, level, cce_count, from));
    } else {
        lemma_usable_len_exists(candidates, level, cce_count, from + 1);
    }
}

/// The tree is exhaustive. Where the engine `before` holds every way of
/// placing its DCIs, is not full and has room for the nodes of one more
/// layer, an attempt to place a DCI succeeds exactly when the DCIs can be
/// placed together with the new one; and after a success the engine again
/// holds every way.
pub proof fn lemma_tree_finds_every_assignment(
    before: &AllocationTree,
    after: &AllocationTree,
    placed: bool,
    level: PdcchAggregation,
    candidates: Seq<u8>,
    rnti: Rnti,
)
    requires
        before.wf(),
        before.is_complete(),
        before.depth() < MAX_PDCCH,
        before.has_room_for(level, candidates, rnti),
        after.is_attempt_on(before, placed, level, candidates, rnti),
    ensures
        placed <==> before.admits(level, candidates, rnti),
        placed ==> after.is_complete(),
{
    let n = before.spec_cce_count() as int;
    let request = request_for(level, candidates, rnti, n);
    let asked = before.requests().push(request);
    let full = extended(before.paths(), request);
    lemma_extended_complete(before.paths(), before.requests(), request, n);
    assert forall|j: int| 0 <= j < request.candidates.len() implies #[trigger] request.candidates[j]
        + request.level.spec_size() <= n by {
        lemma_usable_candidates_fit(candidates, level, n, j);
    }
    lemma_extended_sound(
        before.paths(),
        before.requests(),
        request,
        n,
        before.paths().len() as int,
    );
    if placed {
        assert(is_assignment(full[0], asked, n));
    } else {
        assert forall|assignment: Seq<Placement>| !#[trigger] is_assignment(
            assignment,
            asked,
            n,
        ) by {
            if is_assignment(assignment, asked, n) {
                assert(full.contains(assignment));
            }
        }
    }
}

/// No way to go on without a candidate.
proof fn lemma_extended_without_candidates(
    paths: Seq<Seq<Placement>>,
    request: DciRequest,
    k: int,
)
    requires
        request.candidates.len() == 0,
    ensures
        extended_upto(paths, request, k).len() == 0,
    decreases k,
{
    if k > 0 {
        lemma_extended_without_candidates(paths, request, k - 1);
    }
}

/// An attempt fails on an engine that holds `MAX_PDCCH` DCIs, and it fails
/// where the DCI has no usable candidate: where the list is empty or a DCI
/// does not fit at its first candidate.
pub proof fn lemma_attempt_limits(
    before: &AllocationTree,
    after: &AllocationTree,
    placed: bool,
    level: PdcchAggregation,
    candidates: Seq<u8>,
    rnti: Rnti,
)
    requires
        before.wf(),
        after.is_attempt_on(before, placed, level, candidates, rnti),
    ensures
        before.depth() >= MAX_PDCCH ==> !placed,
        candidates.len() == 0 ==> !placed,
        candidates.len() > 0 && candidates[0] + level.spec_size() > before.spec_cce_count()
            ==> !placed,
{
    let n = before.spec_cce_count() as int;
    let request = request_for(level, candidates, rnti, n);
    if candidates.len() == 0 || candidates[0] + level.spec_size() > n {
        assert(is_usable_len(candidates, level, n, 0));
        lemma_usable_len_unique(candidates, level, n, 0);
        lemma_extended_without_candidates(before.paths(), request, before.paths().len() as int);
    }
}

/// The exhaustive allocator of a cell: one tree for each CFI, and the CFI
/// in use, which moves up when a DCI does not fit.
#[derive(Clone)]
pub struct PdcchSchedTree {
    pub current_cfi: Cfi,
    dci_index: u8,
    candidate_trees: [AllocationTree; NUM_OF_CFI],
}

pub type PdcchSched = PdcchSchedTree;

impl PdcchSchedTree {
    /// The CFI in use.
    pub closed spec fn cfi(&self) -> Cfi {
        self.current_cfi
    }

    /// The engine of the CFI with index `cfi`.
    pub closed spec fn engine(&self, cfi: int) -> AllocationTree {
        self.candidate_trees@[cfi]
    }

    /// The identifier that the next placed DCI gets.
    pub closed spec fn spec_dci_index(&self) -> u8 {
        self.dci_index
    }

    /// Number of DCIs that the three engines hold together.
    pub open spec fn placed_count(&self) -> nat {
        self.engine(0).depth() + self.engine(1).depth() + self.engine(2int).depth()
    }

    /// The allocator is consistent: each engine is, and the identifiers
    /// given out so far are those of the DCIs that the engines hold.
    pub open spec fn wf(&self) -> bool {
        &&& forall|k: int| 0 <= k < 3 ==> (#[trigger] self.engine(k)).wf()
        &&& self.spec_dci_index() == self.placed_count()
    }

    /// `self` is `before` at the start of a new TTI: the CFI is `One`, no
    /// identifier is given out and no engine holds a DCI.
    pub open spec fn is_new_tti_of(&self, before: &PdcchSchedTree) -> bool {
        &&& self.cfi() == Cfi::One
        &&& self.spec_dci_index() == 0
        &&& forall|k: int|
            0 <= k < 3 ==> (#[trigger] self.engine(k)).is_empty() && self.engine(k).is_complete()
                && self.engine(k).spec_cce_count() == before.engine(k).spec_cce_count()
    }

    /// The two allocators are in the same state.
    pub open spec fn same_state(&self, other: &PdcchSchedTree) -> bool {
        &&& self.cfi() == other.cfi()
        &&& self.spec_dci_index() == other.spec_dci_index()
        &&& forall|k: int| 0 <= k < 3 ==> (#[trigger] self.engine(k)).same_as(&other.engine(k))
    }

    /// What `allocate_dci` makes of the allocator `before`. The engines are
    /// tried from the CFI in use upwards. Each one that cannot place the
    /// DCI is left as it was and the CFI moves up; the first one that can
    /// place it does so, and the DCI gets the next identifier. Where none
    /// can, the CFI ends at `Three` and the error is `NoCchSpace`.
    pub open spec fn is_allocation_on(
        &self,
        before: &PdcchSchedTree,
        result: Result<u8, AllocationError>,
        level: PdcchAggregation,
        search_space: SfSearchSpace,
        rnti: Rnti,
    ) -> bool {
        let start = before.cfi().spec_index() as int;
        let end = self.cfi().spec_index() as int;
        &&& start <= end
        &&& forall|k: int|
            0 <= k < 3 && !(start <= k <= end) ==> (#[trigger] self.engine(k)).same_as(
                &before.engine(k),
            )
        &&& forall|k: int|
            start <= k < end ==> (#[trigger] self.engine(k)).is_attempt_on(
                &before.engine(k),
                false,
                level,
                search_space@[k]@[level.spec_index() as int]@,
                rnti,
            )
        &&& self.engine(end).is_attempt_on(
            &before.engine(end),
            result is Ok,
            level,
            search_space@[end]@[level.spec_index() as int]@,
            rnti,
        )
        &&& match result {
            Ok(id) => id == before.spec_dci_index() && self.spec_dci_index() == id + 1,
            Err(e) => e == AllocationError::NoCchSpace && self.cfi() == Cfi::Three
                && self.spec_dci_index() == before.spec_dci_index(),
        }
    }

    /// The allocator of a cell with the given CCE counts, at the start of a TTI.
    pub fn new(cce_table: CceCountTable) -> (r: PdcchSchedTree)
        ensures
            r.wf(),
            r.cfi() == Cfi::One,
            r.spec_dci_index() == 0,
            forall|k: int|
                0 <= k < 3 ==> (#[trigger] r.engine(k)).is_empty() && r.engine(k).is_complete()
                    && r.engine(k).spec_cce_count() == cce_table@[k],
    {
        PdcchSchedTree {
            current_cfi: Cfi::One,
            dci_index: 0,
            candidate_trees: [
                AllocationTree::new(cce_table[0]),
                AllocationTree::new(cce_table[1]),
                AllocationTree::new(cce_table[2]),
            ],
        }
    }

    /// Starts a new TTI: back to CFI `One`, with no DCI placed.
    pub fn new_tti(&mut self)
        ensures
            final(self).wf(),
            final(self).is_new_tti_of(old(self)),
    {
        self.current_cfi = Cfi::One;
        self.dci_index = 0;
        let mut k: usize = 0;
        while k < NUM_OF_CFI
            invariant
                k <= 3,
                self.cfi() == Cfi::One,
                self.spec_dci_index() == 0,
                forall|j: int|
                    0 <= j < 3 ==> (#[trigger] self.engine(j)).spec_cce_count() == old(self).engine(j).spec_cce_count(),
                forall|j: int|
                    0 <= j < k ==> (#[trigger] self.engine(j)).is_empty() && self.engine(j).wf()
                        && self.engine(j).is_complete(),
            decreases 3 - k,
        {
            let ghost prev = *self;
            self.candidate_trees[k].reset();
            assert forall|j: int| 0 <= j < 3 implies (#[trigger] self.engine(j)).spec_cce_count()
                == old(self).engine(j).spec_cce_count() by {
                assert(j != k ==> self.engine(j) == prev.engine(j));
                assert(prev.engine(j).spec_cce_count() == old(self).engine(j).spec_cce_count());
            }
            assert forall|j: int| 0 <= j < k + 1 implies (#[trigger] self.engine(j)).is_empty()
                && self.engine(j).wf() && self.engine(j).is_complete() by {
                assert(j != k ==> self.engine(j) == prev.engine(j));
                assert(j != k ==> prev.engine(j).is_empty() && prev.engine(j).wf() && prev.engine(j).is_complete());
            }
            k += 1;
        }
    }

    /// Moves to the next CFI. At `Three` there is none: the CFI stays and
    /// the error is `NoCchSpace`.
    pub fn increment_cfi(&mut self) -> (r: AllocationResult)
        ensures
            old(self).cfi().spec_next() matches Some(next) ==> r is Ok && final(self).cfi() == next,
            old(self).cfi().spec_next() is None ==> r == Err::<(), AllocationError>(
                AllocationError::NoCchSpace,
            ) && final(self).cfi() == Cfi::Three,
            final(self).cfi().spec_index() >= old(self).cfi().spec_index(),
            final(self).spec_dci_index() == old(self).spec_dci_index(),
            forall|k: int| 0 <= k < 3 ==> final(self).engine(k) == old(self).engine(k),
    {
        match self.current_cfi {
            Cfi::One => {
                self.current_cfi = Cfi::Two;
                Ok(())
            },
            Cfi::Two => {
                self.current_cfi = Cfi::Three;
                Ok(())
            },
            Cfi::Three => Err(AllocationError::NoCchSpace),
        }
    }

    /// Places a DCI of `aggregation_level` for `rnti` at one of the
    /// candidates of `search_space`, at the CFI in use or, where it does
    /// not fit there, at the first larger CFI at which it fits. Returns the
    /// identifier of the DCI: the number of DCIs placed before it in this
    /// TTI.
    pub fn allocate_dci(
        &mut self,
        aggregation_level: PdcchAggregation,
        search_space: &SfSearchSpace,
        rnti: Rnti,
    ) -> (r: Result<u8, AllocationError>)
        requires
            old(self).wf(),
        ensures
            final(self).wf(),
            final(self).cfi().spec_index() >= old(self).cfi().spec_index(),
            final(self).is_allocation_on(old(self), r, aggregation_level, *search_space, rnti),
    {
        let ghost before = *self;
        loop
            invariant
                before == *old(self),
                before.wf(),
                self.wf(),
                before.cfi().spec_index() <= self.cfi().spec_index(),
                self.spec_dci_index() == before.spec_dci_index(),
                forall|k: int|
                    0 <= k < 3 && !(before.cfi().spec_index() <= k < self.cfi().spec_index())
                        ==> #[trigger] self.engine(k) == before.engine(k),
                forall|k: int|
                    before.cfi().spec_index() <= k < self.cfi().spec_index() ==> (
                    #[trigger] self.engine(k)).is_attempt_on(
                        &before.engine(k),
                        false,
                        aggregation_level,
                        search_space@[k]@[aggregation_level.spec_index() as int]@,
                        rnti,
                    ),
            decreases 3 - self.cfi().spec_index(),
        {
            let cfi: usize = self.current_cfi.index();
            let ghost prev = *self;
            let attempt = self.candidate_trees[cfi].try_alloc(
                aggregation_level,
                &search_space[cfi],
                rnti,
            );
            assert(forall|j: int| 0 <= j < 3 && j != cfi ==> self.engine(j) == prev.engine(j));
            assert(self.engine(cfi as int).is_attempt_on(
                &before.engine(cfi as int),
                attempt is Ok,
                aggregation_level,
                search_space@[cfi as int]@[aggregation_level.spec_index() as int]@,
                rnti,
            ));
            match attempt {
                Ok(()) => {
                    let id: u8 = self.dci_index;
                    self.dci_index = id + 1;
                    return Ok(id);
                },
                Err(()) => {
                    match self.increment_cfi() {
                        Ok(()) => {},
                        Err(e) => {
                            return Err(e);
                        },
                    }
                },
            }
        }
    }

    /// One way of placing the DCIs of the CFI in use, the CCEs that it
    /// occupies, and that CFI. The DCIs answer the requests that they were
    /// placed for, lie within the CCEs of the CFI and share no CCE; the
    /// mask marks exactly their CCEs, as many as their sizes add up to.
    pub fn get_allocs(&self) -> (r: (BoundedVec<PdcchAlloc, MAX_PDCCH>, CceMask, Cfi))
        requires
            self.wf(),
        ensures
            r.2 == self.cfi(),
            r.0.wf(),
            placements_of(r.0@) == self.engine(r.2.spec_index() as int).paths()[0],
            r.1.spec_size() == self.engine(r.2.spec_index() as int).spec_cce_count(),
            is_assignment(
                placements_of(r.0@),
                self.engine(r.2.spec_index() as int).requests(),
                self.engine(r.2.spec_index() as int).spec_cce_count() as int,
            ),
            r.1@ == occupied(placements_of(r.0@)),
            r.1@.len() == total_size(placements_of(r.0@)),
            forall|i: int|
                0 <= i < r.0@.len() ==> (#[trigger] r.0@[i]).mask_cces() == r.0@[i].placement().cces(),
            forall|i: int|
                0 <= i < r.0@.len() ==> (#[trigger] r.0@[i]).total_cces() == occupied(
                    placements_of(r.0@).take(i + 1),
                ),
    {
        let (allocs, mask) = self.candidate_trees[self.current_cfi.index()].get_allocs();
        proof {
            let tree = self.engine(self.current_cfi.spec_index() as int);
            assert(tree.wf());
            assert(is_assignment(tree.paths()[0], tree.requests(), tree.spec_cce_count() as int));
            lemma_occupied_count(placements_of(allocs@));
        }
        (allocs, mask, self.current_cfi)
    }
}

/// Starting a new TTI twice in a row leaves the allocator as starting it
/// once does.
pub proof fn lemma_new_tti_idempotent(
    before: PdcchSchedTree,
    once: PdcchSchedTree,
    twice: PdcchSchedTree,
)
    requires
        once.is_new_tti_of(&before),
        twice.is_new_tti_of(&once),
    ensures
        twice.same_state(&once),
{
}

/// The allocator is exhaustive at each CFI. Where each engine from the CFI
/// in use upwards holds every way of placing its DCIs, is not full and has
/// room for one more layer, `allocate_dci` passes over a CFI only where
/// the DCIs placed there cannot be placed together with the new one, and
/// it places the DCI at the first CFI at which they can. Where it reports
/// `NoCchSpace`, they cannot at any CFI from the one in use upwards.
pub proof fn lemma_allocation_is_exhaustive(
    before: &PdcchSchedTree,
    after: &PdcchSchedTree,
    result: Result<u8, AllocationError>,
    level: PdcchAggregation,
    search_space: SfSearchSpace,
    rnti: Rnti,
)
    requires
        before.wf(),
        after.is_allocation_on(before, result, level, search_space, rnti),
        forall|k: int|
            before.cfi().spec_index() <= k < 3 ==> (#[trigger] before.engine(k)).is_complete()
                && before.engine(k).depth() < MAX_PDCCH && before.engine(k).has_room_for(
                level,
                search_space@[k]@[level.spec_index() as int]@,
                rnti,
            ),
    ensures
        forall|k: int|
            before.cfi().spec_index() <= k < after.cfi().spec_index() ==> !(
            #[trigger] before.engine(k)).admits(
                level,
                search_space@[k]@[level.spec_index() as int]@,
                rnti,
            ),
        result is Ok <==> before.engine(after.cfi().spec_index() as int).admits(
            level,
            search_space@[after.cfi().spec_index() as int]@[level.spec_index() as int]@,
            rnti,
        ),
        result is Ok ==> after.engine(after.cfi().spec_index() as int).is_complete(),
{
    let start = before.cfi().spec_index() as int;
    let end = after.cfi().spec_index() as int;
    assert forall|k: int| start <= k < end implies !(#[trigger] before.engine(k)).admits(
        level,
        search_space@[k]@[level.spec_index() as int]@,
        rnti,
    ) by {
        let engine_before = before.engine(k);
        let engine_after = after.engine(k);
        lemma_tree_finds_every_assignment(
            &engine_before,
            &engine_after,
            false,
            level,
            search_space@[k]@[level.spec_index() as int]@,
            rnti,
        );
    }
    let engine_before = before.engine(end);
    let engine_after = after.engine(end);
    lemma_tree_finds_every_assignment(
        &engine_before,
        &engine_after,
        result is Ok,
        level,
        search_space@[end]@[level.spec_index() as int]@,
        rnti,
    );
}

} // verus!
