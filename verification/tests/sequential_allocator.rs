use pdcch_sched::allocator::sequential_pdcch_allocator::{
    PdcchAllocation, PdcchSchedSequential, SequentialAllocation,
};
use pdcch_sched::allocator::structures::{
    calculate_search_space, CceCountTable, CceMask, CcePositions, CfiSearchSpace, PdcchAggregation,
    SfSearchSpace,
};
use pdcch_sched::signalling::structs::AllocationError;
use pdcch_sched::types::bounded_vec::BoundedVec;
use pdcch_sched::types::cfi::Cfi;
use pdcch_sched::types::rnti::Rnti;

fn seq_cell(values: &[u8]) -> CcePositions {
    let mut cell = BoundedVec::new();
    for value in values {
        cell.push(*value).unwrap();
    }
    cell
}

fn seq_l1_space(values: &[u8]) -> CfiSearchSpace {
    [seq_cell(values), seq_cell(&[]), seq_cell(&[]), seq_cell(&[])]
}

fn seq_same_at_every_cfi(values: &[u8]) -> SfSearchSpace {
    [seq_l1_space(values), seq_l1_space(values), seq_l1_space(values)]
}

fn seq_starts(allocs: &[PdcchAllocation]) -> Vec<u8> {
    allocs.iter().map(|a| a.start_cce).collect()
}

fn seq_check_placement(allocs: &[PdcchAllocation], mask: &CceMask, cce_count: usize) {
    let mut expected = CceMask::new(cce_count);
    let mut total = 0;
    for (i, a) in allocs.iter().enumerate() {
        let start = a.start_cce as usize;
        let size = a.aggregation_level.size();
        assert!(start + size <= cce_count);
        for b in allocs[i + 1..].iter() {
            let other = b.start_cce as usize;
            assert!(start + size <= other || other + b.aggregation_level.size() <= start);
        }
        expected.fill(start, size, true).unwrap();
        total += size;
    }
    assert_eq!(*mask, expected);
    assert_eq!(mask.count(), total);
}

#[test]
fn sequential_probe_starts_where_it_is_told() {
    let space = seq_l1_space(&[4, 2, 0, 5]);
    for first in 0..4usize {
        let mut engine = SequentialAllocation::new(6);
        assert_eq!(engine.try_alloc_from(first, PdcchAggregation::L1, &space, Rnti(9)), Ok(()));
        let (allocs, mask) = engine.get_allocs();
        assert_eq!(seq_starts(allocs.as_slice()), vec![[4u8, 2, 0, 5][first]]);
        assert_eq!(
            allocs.as_slice()[0],
            PdcchAllocation {
                aggregation_level: PdcchAggregation::L1,
                start_cce: [4u8, 2, 0, 5][first],
                rnti: Rnti(9),
            }
        );
        seq_check_placement(allocs.as_slice(), &mask, 6);
    }
    // The start is taken modulo the number of candidates.
    let mut engine = SequentialAllocation::new(6);
    assert_eq!(engine.try_alloc_from(4 * 1000 + 3, PdcchAggregation::L1, &space, Rnti(9)), Ok(()));
    assert_eq!(seq_starts(engine.get_allocs().0.as_slice()), vec![5]);
    let mut engine = SequentialAllocation::new(6);
    assert_eq!(engine.try_alloc_from(usize::MAX, PdcchAggregation::L1, &space, Rnti(9)), Ok(()));
    assert_eq!(
        seq_starts(engine.get_allocs().0.as_slice()),
        vec![[4u8, 2, 0, 5][usize::MAX % 4]]
    );
}

#[test]
fn sequential_probe_wraps_round() {
    let space = seq_l1_space(&[0, 1, 2]);
    let mut engine = SequentialAllocation::new(3);
    assert_eq!(engine.try_alloc_from(1, PdcchAggregation::L1, &space, Rnti(1)), Ok(()));
    assert_eq!(engine.try_alloc_from(1, PdcchAggregation::L1, &space, Rnti(2)), Ok(()));
    assert_eq!(engine.try_alloc_from(1, PdcchAggregation::L1, &space, Rnti(3)), Ok(()));
    let (allocs, mask) = engine.get_allocs();
    assert_eq!(seq_starts(allocs.as_slice()), vec![1, 2, 0]);
    seq_check_placement(allocs.as_slice(), &mask, 3);
    assert_eq!(engine.try_alloc_from(1, PdcchAggregation::L1, &space, Rnti(4)), Err(()));
    let (after, after_mask) = engine.get_allocs();
    assert_eq!(seq_starts(after.as_slice()), vec![1, 2, 0]);
    assert_eq!(after_mask, mask);
}

#[test]
fn sequential_is_greedy() {
    // The first DCI takes 0, which is the only place for the second.
    let mut engine = SequentialAllocation::new(2);
    assert_eq!(engine.try_alloc_from(0, PdcchAggregation::L1, &seq_l1_space(&[0, 1]), Rnti(1)), Ok(()));
    assert_eq!(engine.try_alloc_from(0, PdcchAggregation::L1, &seq_l1_space(&[0]), Rnti(2)), Err(()));
    assert_eq!(seq_starts(engine.get_allocs().0.as_slice()), vec![0]);
}

#[test]
fn sequential_candidate_out_of_range_ends_the_attempt() {
    let space = seq_l1_space(&[0, 7]);
    let mut engine = SequentialAllocation::new(6);
    // From 0 the probe finds the free candidate first, from 1 the one out of range.
    assert_eq!(engine.try_alloc_from(1, PdcchAggregation::L1, &space, Rnti(1)), Err(()));
    assert_eq!(engine.get_allocs().0.len(), 0);
    assert_eq!(engine.try_alloc_from(0, PdcchAggregation::L1, &space, Rnti(1)), Ok(()));
    // Now 0 is taken, and the probe goes on to the candidate out of range.
    assert_eq!(engine.try_alloc_from(0, PdcchAggregation::L1, &space, Rnti(2)), Err(()));
    assert_eq!(seq_starts(engine.get_allocs().0.as_slice()), vec![0]);
}

#[test]
fn sequential_empty_candidate_list_fails() {
    let mut engine = SequentialAllocation::new(6);
    assert_eq!(engine.try_alloc_from(0, PdcchAggregation::L2, &seq_l1_space(&[0, 1]), Rnti(1)), Err(()));
    assert_eq!(engine.get_allocs().0.len(), 0);
    assert!(!engine.get_allocs().1.any());
}

#[test]
fn sequential_engine_holds_sixteen_dcis() {
    let mut engine = SequentialAllocation::new(40);
    for i in 0..16u8 {
        let space = seq_l1_space(&[2 * i]);
        assert_eq!(engine.try_alloc_from(0, PdcchAggregation::L1, &space, Rnti(i as u16)), Ok(()));
    }
    assert_eq!(engine.try_alloc_from(0, PdcchAggregation::L1, &seq_l1_space(&[33]), Rnti(16)), Err(()));
    let (allocs, mask) = engine.get_allocs();
    assert_eq!(allocs.len(), 16);
    assert_eq!(mask.count(), 16);
    seq_check_placement(allocs.as_slice(), &mask, 40);
    engine.reset();
    assert_eq!(engine.get_allocs().0.len(), 0);
    assert_eq!(engine.get_allocs().1, CceMask::new(40));
    assert_eq!(engine.try_alloc_from(0, PdcchAggregation::L1, &seq_l1_space(&[33]), Rnti(16)), Ok(()));
}

#[test]
fn sequential_seventeenth_dci_is_refused() {
    let mut s = PdcchSchedSequential::with_seed([32, 0, 0], 1);
    s.new_tti();
    for id in 0..16u8 {
        let space = seq_same_at_every_cfi(&[id]);
        assert_eq!(s.allocate_dci(PdcchAggregation::L1, &space, Rnti(id as u16)), Ok(id));
    }
    let space = seq_same_at_every_cfi(&[16]);
    assert_eq!(
        s.allocate_dci(PdcchAggregation::L1, &space, Rnti(16)),
        Err(AllocationError::NoCchSpace)
    );
    assert_eq!(s.get_allocs().0.len(), 0);
    assert_eq!(s.current_cfi, Cfi::Three);
}

#[test]
fn sequential_single_dci_lands_in_its_search_space() {
    let count_table: CceCountTable = [2, 4, 6];
    let rnti = Rnti(70);
    let search_space = calculate_search_space(&rnti, &count_table);
    for seed in 0..20u64 {
        let mut s = PdcchSchedSequential::with_seed(count_table, seed);
        s.new_tti();
        assert_eq!(s.allocate_dci(PdcchAggregation::L1, &search_space[1], rnti), Ok(0));
        let (allocs, mask, cfi) = s.get_allocs();
        assert_eq!(cfi, Cfi::One);
        assert_eq!(allocs.len(), 1);
        assert_eq!(allocs.as_slice()[0].rnti, rnti);
        assert!(search_space[1][0][0].as_slice().contains(&allocs.as_slice()[0].start_cce));
        seq_check_placement(allocs.as_slice(), &mask, 2);
    }
    let mut s = PdcchSchedSequential::new(count_table);
    assert_eq!(s.allocate_dci(PdcchAggregation::L1, &search_space[1], rnti), Ok(0));
    assert_eq!(s.get_allocs().0.len(), 1);
}

#[test]
fn sequential_fills_a_control_region() {
    let mut s = PdcchSchedSequential::with_seed([6, 0, 0], 7);
    s.new_tti();
    let space = seq_same_at_every_cfi(&[0, 1, 2, 3, 4, 5]);
    for id in 0..6u8 {
        assert_eq!(s.allocate_dci(PdcchAggregation::L1, &space, Rnti(70 + id as u16)), Ok(id));
    }
    let (allocs, mask, cfi) = s.get_allocs();
    assert_eq!(cfi, Cfi::One);
    assert_eq!(allocs.len(), 6);
    let mut expected = CceMask::new(6);
    expected.fill(0, 6, true).unwrap();
    assert_eq!(mask, expected);
    seq_check_placement(allocs.as_slice(), &mask, 6);
    assert_eq!(
        s.allocate_dci(PdcchAggregation::L1, &space, Rnti(80)),
        Err(AllocationError::NoCchSpace)
    );
}

#[test]
fn sequential_moves_to_the_next_cfi_when_one_is_full() {
    let mut s = PdcchSchedSequential::with_seed([2, 4, 6], 3);
    s.new_tti();
    let space = seq_same_at_every_cfi(&[0, 1, 2, 3]);
    let mut last = s.current_cfi;
    for id in 0..3u8 {
        assert_eq!(s.allocate_dci(PdcchAggregation::L1, &space, Rnti(id as u16)), Ok(id));
        assert!(s.current_cfi >= last);
        last = s.current_cfi;
    }
    let (allocs, mask, cfi) = s.get_allocs();
    assert_eq!(cfi, Cfi::Two);
    assert_eq!(allocs.len(), 1);
    assert_eq!(allocs.as_slice()[0].rnti, Rnti(2));
    seq_check_placement(allocs.as_slice(), &mask, 4);
}

#[test]
fn sequential_given_starts_decide_the_places() {
    let mut s = PdcchSchedSequential::with_seed([2, 4, 6], 0);
    s.new_tti();
    let space = seq_same_at_every_cfi(&[0, 1, 2, 3]);
    assert_eq!(s.allocate_dci_from(PdcchAggregation::L1, &space, Rnti(1), [1, 0, 0]), Ok(0));
    assert_eq!(seq_starts(s.get_allocs().0.as_slice()), vec![1]);
    // From 1 the probe meets the taken 1 and then 2, which lies out of range at
    // CFI One: the attempt ends there, and the DCI goes to CFI Two.
    assert_eq!(s.allocate_dci_from(PdcchAggregation::L1, &space, Rnti(2), [1, 0, 0]), Ok(1));
    assert_eq!(s.current_cfi, Cfi::Two);
    assert_eq!(seq_starts(s.get_allocs().0.as_slice()), vec![0]);
    assert_eq!(s.allocate_dci_from(PdcchAggregation::L1, &space, Rnti(3), [2, 3, 0]), Ok(2));
    assert_eq!(s.current_cfi, Cfi::Two);
    assert_eq!(seq_starts(s.get_allocs().0.as_slice()), vec![0, 3]);
    // From 0 the probe at CFI One would have found the free 0.
    let mut other = PdcchSchedSequential::with_seed([2, 4, 6], 0);
    assert_eq!(other.allocate_dci_from(PdcchAggregation::L1, &space, Rnti(1), [1, 0, 0]), Ok(0));
    assert_eq!(other.allocate_dci_from(PdcchAggregation::L1, &space, Rnti(2), [0, 0, 0]), Ok(1));
    assert_eq!(other.current_cfi, Cfi::One);
    assert_eq!(seq_starts(other.get_allocs().0.as_slice()), vec![1, 0]);
}

#[test]
fn sequential_same_seed_same_placements() {
    let count_table: CceCountTable = [21, 54, 87];
    let levels = [
        PdcchAggregation::L1,
        PdcchAggregation::L2,
        PdcchAggregation::L1,
        PdcchAggregation::L4,
        PdcchAggregation::L1,
        PdcchAggregation::L8,
        PdcchAggregation::L2,
        PdcchAggregation::L1,
    ];
    for seed in [0u64, 1, 42, 0xdead_beef] {
        let mut runs = Vec::new();
        for _ in 0..2 {
            let mut s = PdcchSchedSequential::with_seed(count_table, seed);
            s.new_tti();
            let mut results = Vec::new();
            for (i, level) in levels.iter().enumerate() {
                let rnti = Rnti(1000 + 37 * i as u16);
                let search_space = calculate_search_space(&rnti, &count_table);
                results.push(s.allocate_dci(*level, &search_space[3], rnti));
            }
            let (allocs, mask, cfi) = s.get_allocs();
            seq_check_placement(allocs.as_slice(), &mask, count_table[cfi.index()] as usize);
            runs.push((results, allocs, mask, cfi));
        }
        assert_eq!(runs[0], runs[1]);
    }
}

#[test]
fn sequential_probe_start_is_drawn() {
    // Both candidates are free: which one is taken shows where the probe started.
    let space = seq_same_at_every_cfi(&[0, 1]);
    let mut taken = [0usize; 2];
    for seed in 0..64u64 {
        let mut s = PdcchSchedSequential::with_seed([2, 4, 6], seed);
        s.new_tti();
        assert_eq!(s.allocate_dci(PdcchAggregation::L1, &space, Rnti(5)), Ok(0));
        let (allocs, _, _) = s.get_allocs();
        taken[allocs.as_slice()[0].start_cce as usize] += 1;
    }
    assert!(taken[0] > 0);
    assert!(taken[1] > 0);
    assert_eq!(taken[0] + taken[1], 64);
}

#[test]
fn sequential_new_tti_twice_is_new_tti_once() {
    let mut s = PdcchSchedSequential::with_seed([2, 4, 6], 11);
    let space = seq_same_at_every_cfi(&[0, 1, 2, 3, 4, 5]);
    for r in 0..7u16 {
        s.allocate_dci(PdcchAggregation::L1, &space, Rnti(r)).unwrap();
    }
    assert_eq!(s.current_cfi, Cfi::Three);
    s.new_tti();
    let once = s.get_allocs();
    s.new_tti();
    let twice = s.get_allocs();
    assert_eq!(once, twice);
    assert_eq!(once.0.len(), 0);
    assert_eq!(once.1, CceMask::new(2));
    assert_eq!(once.2, Cfi::One);
    assert_eq!(s.allocate_dci(PdcchAggregation::L1, &space, Rnti(7)), Ok(0));
}

#[test]
fn sequential_increment_cfi_stops_at_three() {
    let mut s = PdcchSchedSequential::with_seed([2, 4, 6], 0);
    assert_eq!(s.increment_cfi(), Ok(()));
    assert_eq!(s.current_cfi, Cfi::Two);
    assert_eq!(s.increment_cfi(), Ok(()));
    assert_eq!(s.current_cfi, Cfi::Three);
    assert_eq!(s.increment_cfi(), Err(AllocationError::NoCchSpace));
    assert_eq!(s.current_cfi, Cfi::Three);
}
