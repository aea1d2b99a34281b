use pdcch_sched::allocator::shuffling_pdcch_allocator::{
    PdcchAllocation, PdcchSchedShuffling, ShufflingAllocation,
};
use pdcch_sched::allocator::structures::{
    calculate_search_space, CceCountTable, CceMask, CcePositions, CfiSearchSpace, PdcchAggregation,
    SfSearchSpace,
};
use pdcch_sched::signalling::structs::AllocationError;
use pdcch_sched::types::bounded_vec::BoundedVec;
use pdcch_sched::types::cfi::Cfi;
use pdcch_sched::types::rnti::Rnti;

fn shuf_cell(values: &[u8]) -> CcePositions {
    let mut cell = BoundedVec::new();
    for value in values {
        cell.push(*value).unwrap();
    }
    cell
}

fn shuf_l1_space(values: &[u8]) -> CfiSearchSpace {
    [shuf_cell(values), shuf_cell(&[]), shuf_cell(&[]), shuf_cell(&[])]
}

fn shuf_same_at_every_cfi(values: &[u8]) -> SfSearchSpace {
    [shuf_l1_space(values), shuf_l1_space(values), shuf_l1_space(values)]
}

fn shuf_places(allocs: &[PdcchAllocation]) -> Vec<(u16, u8)> {
    allocs.iter().map(|a| (a.rnti.0, a.start_cce)).collect()
}

fn shuf_check_placement(allocs: &[PdcchAllocation], mask: &CceMask, cce_count: usize) {
    let mut expected = CceMask::new(cce_count);
    let mut total = 0;
    for (i, a) in allocs.iter().enumerate() {
        let start = a.start_cce as usize;
        let size = a.aggregation_level.size();
        assert!(start + size <= cce_count);
        for b in allocs[i + 1..].iter() {
            let other = b.start_cce as usize;
            assert!(start + size <= other || other + b.aggregation_level.size() <= start);
        }
        expected.fill(start, size, true).unwrap();
        total += size;
    }
    assert_eq!(*mask, expected);
    assert_eq!(mask.count(), total);
}

#[test]
fn shuffling_takes_a_free_candidate_first() {
    let space = shuf_l1_space(&[4, 2, 0, 5]);
    for first in 0..4usize {
        let mut engine = ShufflingAllocation::new(6);
        assert_eq!(engine.try_alloc_from(first, PdcchAggregation::L1, &space, Rnti(9)), Ok(()));
        let (allocs, mask) = engine.get_allocs();
        assert_eq!(shuf_places(allocs.as_slice()), vec![(9, [4u8, 2, 0, 5][first])]);
        shuf_check_placement(allocs.as_slice(), &mask, 6);
    }
}

#[test]
fn shuffling_moves_an_earlier_dci_out_of_the_way() {
    // The first DCI takes 0, which is the only place for the second: it moves to 1.
    let mut engine = ShufflingAllocation::new(2);
    assert_eq!(engine.try_alloc_from(0, PdcchAggregation::L1, &shuf_l1_space(&[0, 1]), Rnti(1)), Ok(()));
    assert_eq!(shuf_places(engine.get_allocs().0.as_slice()), vec![(1, 0)]);
    assert_eq!(engine.try_alloc_from(0, PdcchAggregation::L1, &shuf_l1_space(&[0]), Rnti(2)), Ok(()));
    let (allocs, mask) = engine.get_allocs();
    assert_eq!(shuf_places(allocs.as_slice()), vec![(1, 1), (2, 0)]);
    shuf_check_placement(allocs.as_slice(), &mask, 2);
    // With both CCEs taken nothing can move.
    assert_eq!(engine.try_alloc_from(0, PdcchAggregation::L1, &shuf_l1_space(&[0, 1]), Rnti(3)), Err(()));
    let (after, after_mask) = engine.get_allocs();
    assert_eq!(shuf_places(after.as_slice()), vec![(1, 1), (2, 0)]);
    assert_eq!(after_mask, mask);
}

#[test]
fn shuffling_moves_every_dci_in_the_way() {
    // An L2 DCI at 0 needs both L1 DCIs out of the way.
    let mut engine = ShufflingAllocation::new(4);
    let ones = shuf_l1_space(&[0, 1, 2, 3]);
    assert_eq!(engine.try_alloc_from(0, PdcchAggregation::L1, &ones, Rnti(1)), Ok(()));
    assert_eq!(engine.try_alloc_from(0, PdcchAggregation::L1, &ones, Rnti(2)), Ok(()));
    assert_eq!(shuf_places(engine.get_allocs().0.as_slice()), vec![(1, 0), (2, 1)]);
    let twos: CfiSearchSpace = [shuf_cell(&[]), shuf_cell(&[0]), shuf_cell(&[]), shuf_cell(&[])];
    assert_eq!(engine.try_alloc_from(0, PdcchAggregation::L2, &twos, Rnti(3)), Ok(()));
    let (allocs, mask) = engine.get_allocs();
    assert_eq!(shuf_places(allocs.as_slice()), vec![(1, 2), (2, 3), (3, 0)]);
    assert_eq!(allocs.as_slice()[2].aggregation_level, PdcchAggregation::L2);
    shuf_check_placement(allocs.as_slice(), &mask, 4);
    assert_eq!(mask.count(), 4);
}

#[test]
fn shuffling_keeps_the_moves_of_a_failed_pass() {
    // The L2 DCI at 0 meets both L1 DCIs. The first moves to 2; the second has
    // no other place, so the DCI is not placed. The first stays at 2.
    let mut engine = ShufflingAllocation::new(4);
    assert_eq!(engine.try_alloc_from(0, PdcchAggregation::L1, &shuf_l1_space(&[0, 2]), Rnti(1)), Ok(()));
    assert_eq!(engine.try_alloc_from(0, PdcchAggregation::L1, &shuf_l1_space(&[1]), Rnti(2)), Ok(()));
    let twos: CfiSearchSpace = [shuf_cell(&[]), shuf_cell(&[0]), shuf_cell(&[]), shuf_cell(&[])];
    assert_eq!(engine.try_alloc_from(0, PdcchAggregation::L2, &twos, Rnti(3)), Err(()));
    let (allocs, mask) = engine.get_allocs();
    assert_eq!(shuf_places(allocs.as_slice()), vec![(1, 2), (2, 1)]);
    shuf_check_placement(allocs.as_slice(), &mask, 4);
}

#[test]
fn shuffling_goes_on_to_the_next_candidate() {
    // At 0 the way cannot be cleared, at 2 it can.
    let mut engine = ShufflingAllocation::new(4);
    assert_eq!(engine.try_alloc_from(0, PdcchAggregation::L1, &shuf_l1_space(&[0]), Rnti(1)), Ok(()));
    assert_eq!(engine.try_alloc_from(0, PdcchAggregation::L1, &shuf_l1_space(&[2, 1]), Rnti(2)), Ok(()));
    assert_eq!(engine.try_alloc_from(0, PdcchAggregation::L1, &shuf_l1_space(&[3]), Rnti(3)), Ok(()));
    let twos: CfiSearchSpace = [shuf_cell(&[]), shuf_cell(&[0, 2]), shuf_cell(&[]), shuf_cell(&[])];
    // The L2 DCI at 2 meets the DCIs at 2 and 3: the first moves to 1, the second is stuck.
    assert_eq!(engine.try_alloc_from(0, PdcchAggregation::L2, &twos, Rnti(4)), Err(()));
    let (allocs, mask) = engine.get_allocs();
    assert_eq!(shuf_places(allocs.as_slice()), vec![(1, 0), (2, 1), (3, 3)]);
    shuf_check_placement(allocs.as_slice(), &mask, 4);
    let mut other = ShufflingAllocation::new(4);
    assert_eq!(other.try_alloc_from(0, PdcchAggregation::L1, &shuf_l1_space(&[0]), Rnti(1)), Ok(()));
    assert_eq!(other.try_alloc_from(0, PdcchAggregation::L1, &shuf_l1_space(&[2, 1]), Rnti(2)), Ok(()));
    assert_eq!(other.try_alloc_from(0, PdcchAggregation::L2, &twos, Rnti(4)), Ok(()));
    let (allocs, mask) = other.get_allocs();
    assert_eq!(shuf_places(allocs.as_slice()), vec![(1, 0), (2, 1), (4, 2)]);
    shuf_check_placement(allocs.as_slice(), &mask, 4);
}

#[test]
fn shuffling_repair_pass_alone() {
    let mut engine = ShufflingAllocation::new(2);
    assert_eq!(engine.try_alloc_from(0, PdcchAggregation::L1, &shuf_l1_space(&[0, 1]), Rnti(1)), Ok(()));
    assert_eq!(engine.shuffle(PdcchAggregation::L1, &shuf_l1_space(&[0]), Rnti(2)), Ok(()));
    assert_eq!(shuf_places(engine.get_allocs().0.as_slice()), vec![(1, 1), (2, 0)]);
    // A candidate out of range ends the pass.
    let mut other = ShufflingAllocation::new(2);
    assert_eq!(other.try_alloc_from(0, PdcchAggregation::L1, &shuf_l1_space(&[0, 1]), Rnti(1)), Ok(()));
    assert_eq!(other.shuffle(PdcchAggregation::L1, &shuf_l1_space(&[2, 0]), Rnti(2)), Err(()));
    assert_eq!(shuf_places(other.get_allocs().0.as_slice()), vec![(1, 0)]);
    // A free candidate is taken without a move.
    assert_eq!(other.shuffle(PdcchAggregation::L1, &shuf_l1_space(&[1]), Rnti(2)), Ok(()));
    assert_eq!(shuf_places(other.get_allocs().0.as_slice()), vec![(1, 0), (2, 1)]);
}

#[test]
fn shuffling_candidate_out_of_range_ends_the_attempt() {
    let space = shuf_l1_space(&[0, 7]);
    let mut engine = ShufflingAllocation::new(6);
    assert_eq!(engine.try_alloc_from(1, PdcchAggregation::L1, &space, Rnti(1)), Err(()));
    assert_eq!(engine.get_allocs().0.len(), 0);
    assert_eq!(engine.try_alloc_from(0, PdcchAggregation::L1, &space, Rnti(1)), Ok(()));
    assert_eq!(engine.try_alloc_from(0, PdcchAggregation::L1, &space, Rnti(2)), Err(()));
    assert_eq!(shuf_places(engine.get_allocs().0.as_slice()), vec![(1, 0)]);
    assert_eq!(engine.try_alloc_from(0, PdcchAggregation::L4, &space, Rnti(2)), Err(()));
}

#[test]
fn shuffling_engine_holds_sixteen_dcis() {
    let mut engine = ShufflingAllocation::new(40);
    for i in 0..16u8 {
        let space = shuf_l1_space(&[2 * i]);
        assert_eq!(engine.try_alloc_from(0, PdcchAggregation::L1, &space, Rnti(i as u16)), Ok(()));
    }
    assert_eq!(engine.try_alloc_from(0, PdcchAggregation::L1, &shuf_l1_space(&[33]), Rnti(16)), Err(()));
    assert_eq!(engine.shuffle(PdcchAggregation::L1, &shuf_l1_space(&[33]), Rnti(16)), Err(()));
    let (allocs, mask) = engine.get_allocs();
    assert_eq!(allocs.len(), 16);
    shuf_check_placement(allocs.as_slice(), &mask, 40);
    engine.reset();
    assert_eq!(engine.get_allocs().0.len(), 0);
    assert_eq!(engine.get_allocs().1, CceMask::new(40));
}

#[test]
fn shuffling_seventeenth_dci_is_refused() {
    let mut s = PdcchSchedShuffling::with_seed([32, 0, 0], 1);
    s.new_tti();
    for id in 0..16u8 {
        let space = shuf_same_at_every_cfi(&[id]);
        assert_eq!(s.allocate_dci(PdcchAggregation::L1, &space, Rnti(id as u16)), Ok(id));
    }
    let space = shuf_same_at_every_cfi(&[16]);
    assert_eq!(
        s.allocate_dci(PdcchAggregation::L1, &space, Rnti(16)),
        Err(AllocationError::NoCchSpace)
    );
}

#[test]
fn shuffling_single_dci_lands_in_its_search_space() {
    let count_table: CceCountTable = [2, 4, 6];
    let rnti = Rnti(70);
    let search_space = calculate_search_space(&rnti, &count_table);
    for seed in 0..20u64 {
        let mut s = PdcchSchedShuffling::with_seed(count_table, seed);
        s.new_tti();
        assert_eq!(s.allocate_dci(PdcchAggregation::L1, &search_space[1], rnti), Ok(0));
        let (allocs, mask, cfi) = s.get_allocs();
        assert_eq!(cfi, Cfi::One);
        assert_eq!(allocs.len(), 1);
        assert_eq!(allocs.as_slice()[0].rnti, rnti);
        assert!(search_space[1][0][0].as_slice().contains(&allocs.as_slice()[0].start_cce));
        shuf_check_placement(allocs.as_slice(), &mask, 2);
    }
    let mut s = PdcchSchedShuffling::new(count_table);
    assert_eq!(s.allocate_dci(PdcchAggregation::L1, &search_space[1], rnti), Ok(0));
}

#[test]
fn shuffling_places_more_than_greedy() {
    let mut s = PdcchSchedShuffling::with_seed([2, 4, 6], 5);
    s.new_tti();
    let wide = shuf_same_at_every_cfi(&[0, 1]);
    let narrow = shuf_same_at_every_cfi(&[0]);
    assert_eq!(s.allocate_dci_from(PdcchAggregation::L1, &wide, Rnti(1), [0, 0, 0]), Ok(0));
    assert_eq!(s.allocate_dci_from(PdcchAggregation::L1, &narrow, Rnti(2), [0, 0, 0]), Ok(1));
    let (allocs, mask, cfi) = s.get_allocs();
    assert_eq!(cfi, Cfi::One);
    assert_eq!(shuf_places(allocs.as_slice()), vec![(1, 1), (2, 0)]);
    shuf_check_placement(allocs.as_slice(), &mask, 2);
    assert_eq!(s.allocate_dci_from(PdcchAggregation::L1, &wide, Rnti(3), [0, 0, 0]), Ok(2));
    assert_eq!(s.current_cfi, Cfi::Two);
    assert_eq!(shuf_places(s.get_allocs().0.as_slice()), vec![(3, 0)]);
}

#[test]
fn shuffling_same_seed_same_placements() {
    let count_table: CceCountTable = [21, 54, 87];
    for seed in [0u64, 1, 42] {
        let mut runs = Vec::new();
        for _ in 0..2 {
            let mut s = PdcchSchedShuffling::with_seed(count_table, seed);
            s.new_tti();
            let mut results = Vec::new();
            for i in 0..12u16 {
                let rnti = Rnti(500 + 91 * i);
                let search_space = calculate_search_space(&rnti, &count_table);
                let level = if i % 3 == 0 { PdcchAggregation::L2 } else { PdcchAggregation::L1 };
                results.push(s.allocate_dci(level, &search_space[7], rnti));
            }
            let (allocs, mask, cfi) = s.get_allocs();
            shuf_check_placement(allocs.as_slice(), &mask, count_table[cfi.index()] as usize);
            runs.push((results, shuf_places(allocs.as_slice()), mask, cfi));
        }
        assert_eq!(runs[0], runs[1]);
    }
}

#[test]
fn shuffling_new_tti_twice_is_new_tti_once() {
    let mut s = PdcchSchedShuffling::with_seed([2, 4, 6], 11);
    let space = shuf_same_at_every_cfi(&[0, 1, 2, 3, 4, 5]);
    for r in 0..7u16 {
        s.allocate_dci(PdcchAggregation::L1, &space, Rnti(r)).unwrap();
    }
    assert_eq!(s.current_cfi, Cfi::Three);
    s.new_tti();
    let once = s.get_allocs();
    s.new_tti();
    let twice = s.get_allocs();
    assert_eq!(once.0.len(), 0);
    assert_eq!(twice.0.len(), 0);
    assert_eq!(once.1, twice.1);
    assert_eq!(once.2, Cfi::One);
    assert_eq!(twice.2, Cfi::One);
    assert_eq!(s.increment_cfi(), Ok(()));
    assert_eq!(s.increment_cfi(), Ok(()));
    assert_eq!(s.increment_cfi(), Err(AllocationError::NoCchSpace));
}
