use pdcch_sched::allocator::structures::{
    calculate_search_space, CceCountTable, CceMask, CcePositions, CfiSearchSpace, PdcchAggregation,
    SearchSpace, SfSearchSpace,
};
use pdcch_sched::allocator::tree_pdcch_allocator::{AllocationTree, PdcchAlloc, PdcchSched};
use pdcch_sched::signalling::structs::AllocationError;
use pdcch_sched::types::bounded_vec::BoundedVec;
use pdcch_sched::types::cfi::Cfi;
use pdcch_sched::types::rnti::Rnti;

fn tree_cell(values: &[u8]) -> CcePositions {
    let mut cell = BoundedVec::new();
    for value in values {
        cell.push(*value).unwrap();
    }
    cell
}

fn tree_l1_space(values: &[u8]) -> CfiSearchSpace {
    [tree_cell(values), tree_cell(&[]), tree_cell(&[]), tree_cell(&[])]
}

fn tree_same_at_every_cfi(values: &[u8]) -> SfSearchSpace {
    [tree_l1_space(values), tree_l1_space(values), tree_l1_space(values)]
}

fn tree_starts(allocs: &[PdcchAlloc]) -> Vec<u8> {
    allocs.iter().map(|a| a.start_cce).collect()
}

fn tree_check_placement(allocs: &[PdcchAlloc], mask: &CceMask, cce_count: usize) {
    let mut expected = CceMask::new(cce_count);
    let mut total = 0;
    for (i, a) in allocs.iter().enumerate() {
        let start = a.start_cce as usize;
        let size = a.aggregation_level.size();
        assert!(start + size <= cce_count);
        for b in allocs[i + 1..].iter() {
            let other = b.start_cce as usize;
            assert!(start + size <= other || other + b.aggregation_level.size() <= start);
        }
        expected.fill(start, size, true).unwrap();
        total += size;
    }
    assert_eq!(*mask, expected);
    assert_eq!(mask.count(), total);
}

#[test]
fn a() {
    let count_table: CceCountTable = [2, 4, 6];

    let mut s = PdcchSched::new(count_table);
    s.new_tti();

    let tti: usize = 1;

    let rnti = Rnti(1);
    let search_space = calculate_search_space(&rnti, &count_table);

    s.allocate_dci(PdcchAggregation::L1, &search_space[tti % 10], rnti).unwrap();
    s.allocate_dci(PdcchAggregation::L1, &search_space[tti % 10], rnti).unwrap();
    s.allocate_dci(PdcchAggregation::L1, &search_space[tti % 10], rnti).unwrap();
    s.allocate_dci(PdcchAggregation::L1, &search_space[tti % 10], rnti).unwrap();

    let (allocs, mask, cfi) = s.get_allocs();
    println!("{:?}", allocs);
    println!("{:?}", mask);
    println!("{:?}", cfi);
    println!("{:?}", search_space[tti % 10]);
}

#[test]
fn pdcch_allocation_and_search_space() {
    let count_table: CceCountTable = [2, 4, 6];
    let mut s = PdcchSched::new(count_table);
    s.new_tti();

    let tti: usize = 1;

    let rnti = Rnti(70);
    let search_space = calculate_search_space(&rnti, &count_table);

    let aggr_level = PdcchAggregation::L1;

    s.allocate_dci(aggr_level, &search_space[tti % 10], rnti).unwrap();

    let (allocs, mask, cfi) = s.get_allocs();
    println!("{:?}", allocs);
    println!("{:?}", mask);
    println!("{:?}", cfi);

    // Check if rnti is allocated in PDCCH
    assert_eq!(allocs.as_slice()[0].rnti, rnti);

    // Check if allocation is in rnti's search space
    assert!(search_space[tti][cfi.index()][aggr_level.index()]
        .as_slice()
        .iter()
        .find(|cce| **cce == allocs.as_slice()[0].start_cce)
        .is_some());
    assert!(search_space[tti][cfi.index()][aggr_level.index()]
        .as_slice()
        .iter()
        .find(|cce| **cce == allocs.as_slice()[0].start_cce)
        .is_some());

    assert_eq!(allocs.len(), 1);
}

#[test]
fn pdcch_search_space_full() {
    let count_table: CceCountTable = [2, 4, 6];
    let mut s = PdcchSched::new(count_table);
    s.new_tti();

    let sf_idx: usize = 1;

    let aggr_level = PdcchAggregation::L1;

    let mut search_space = SearchSpace::default();

    for cfiss in search_space[1].iter_mut() {
        for cfi in Cfi::list() {
            cfiss[cfi.index()].push(0).unwrap();
            cfiss[cfi.index()].push(1).unwrap();
            cfiss[cfi.index()].push(2).unwrap();
            cfiss[cfi.index()].push(3).unwrap();
            cfiss[cfi.index()].push(4).unwrap();
            cfiss[cfi.index()].push(5).unwrap();
        }
        // The lists are full by now: they take no seventh candidate.
        for cfi in Cfi::list() {
            assert_eq!(cfiss[cfi.index()].push(0), Err(0));
            assert_eq!(cfiss[cfi.index()].push(1), Err(1));
            assert_eq!(cfiss[cfi.index()].push(2), Err(2));
            assert_eq!(cfiss[cfi.index()].push(3), Err(3));
            assert_eq!(cfiss[cfi.index()].push(4), Err(4));
            assert_eq!(cfiss[cfi.index()].push(5), Err(5));
        }
    }

    for r in 70..76 {
        let rnti = Rnti(r);
        s.allocate_dci(aggr_level, &search_space[sf_idx], rnti).unwrap();
        s.allocate_dci(aggr_level, &search_space[sf_idx], rnti).unwrap();
    }

    let (allocs, mask, cfi) = s.get_allocs();
    println!("{:?}", allocs);
    println!("{:?}", mask);
    println!("{:?}", cfi);

    assert_eq!(allocs.len(), 6);

    let mut expected_mask = CceMask::new(mask.size());
    for i in 0..6 {
        expected_mask.set(i, true).unwrap();
    }
    assert_eq!(mask, expected_mask);

    let _res = s
        .allocate_dci(aggr_level, &search_space[sf_idx], Rnti(80))
        .expect_err("Allocation with full mask should fail");
    let res = s
        .allocate_dci(aggr_level, &search_space[sf_idx], Rnti(80))
        .expect_err("Allocation with full mask should fail");
    assert!(matches!(res, AllocationError::NoCchSpace));
}

#[test]
fn tree_single_dci_lands_in_its_search_space() {
    let count_table: CceCountTable = [2, 4, 6];
    let mut s = PdcchSched::new(count_table);
    s.new_tti();
    let rnti = Rnti(70);
    let search_space = calculate_search_space(&rnti, &count_table);
    assert_eq!(s.allocate_dci(PdcchAggregation::L1, &search_space[1], rnti), Ok(0));
    let (allocs, mask, cfi) = s.get_allocs();
    assert_eq!(cfi, Cfi::One);
    assert_eq!(allocs.len(), 1);
    // The first candidate of the list [0, 1, 0, 1, 0, 0] is taken.
    assert_eq!(allocs.as_slice()[0].start_cce, 0);
    assert_eq!(allocs.as_slice()[0].aggregation_level, PdcchAggregation::L1);
    assert_eq!(allocs.as_slice()[0].rnti, rnti);
    assert_eq!(mask.size(), 2);
    tree_check_placement(allocs.as_slice(), &mask, 2);
}

#[test]
fn tree_places_four_dcis_of_one_ue() {
    let count_table: CceCountTable = [21, 54, 87];
    let mut s = PdcchSched::new(count_table);
    s.new_tti();
    let rnti = Rnti(1);
    let search_space = calculate_search_space(&rnti, &count_table);
    for id in 0..4u8 {
        assert_eq!(s.allocate_dci(PdcchAggregation::L1, &search_space[1], rnti), Ok(id));
    }
    let (allocs, mask, cfi) = s.get_allocs();
    assert_eq!(cfi, Cfi::One);
    assert_eq!(allocs.len(), 4);
    // The candidates are [1, 5, 17, 0, 10, 2]; the first way kept takes them in order.
    assert_eq!(tree_starts(allocs.as_slice()), vec![1, 5, 17, 0]);
    for a in allocs.as_slice() {
        assert!(search_space[1][0][0].as_slice().contains(&a.start_cce));
    }
    tree_check_placement(allocs.as_slice(), &mask, 21);
}

#[test]
fn tree_finds_the_one_way_that_greedy_misses() {
    // The first DCI may go to 0 or 1, the second only to 0.
    let mut tree = AllocationTree::new(2);
    assert_eq!(tree.try_alloc(PdcchAggregation::L1, &tree_l1_space(&[0, 1]), Rnti(1)), Ok(()));
    let (first, _) = tree.get_allocs();
    assert_eq!(tree_starts(first.as_slice()), vec![0]);
    assert_eq!(tree.try_alloc(PdcchAggregation::L1, &tree_l1_space(&[0]), Rnti(2)), Ok(()));
    let (allocs, mask) = tree.get_allocs();
    assert_eq!(tree_starts(allocs.as_slice()), vec![1, 0]);
    assert_eq!(allocs.as_slice()[0].rnti, Rnti(1));
    assert_eq!(allocs.as_slice()[1].rnti, Rnti(2));
    tree_check_placement(allocs.as_slice(), &mask, 2);
    // No third DCI fits, and the failed attempt changes nothing.
    assert_eq!(tree.try_alloc(PdcchAggregation::L1, &tree_l1_space(&[0, 1]), Rnti(3)), Err(()));
    let (after, after_mask) = tree.get_allocs();
    assert_eq!(tree_starts(after.as_slice()), vec![1, 0]);
    assert_eq!(after_mask, mask);
}

#[test]
fn tree_mixes_aggregation_levels() {
    let mut tree = AllocationTree::new(8);
    let space: CfiSearchSpace =
        [tree_cell(&[0, 4]), tree_cell(&[0, 2, 6]), tree_cell(&[0, 4]), tree_cell(&[0])];
    assert_eq!(tree.try_alloc(PdcchAggregation::L4, &space, Rnti(1)), Ok(()));
    assert_eq!(tree.try_alloc(PdcchAggregation::L2, &space, Rnti(2)), Ok(()));
    assert_eq!(tree.try_alloc(PdcchAggregation::L2, &space, Rnti(3)), Ok(()));
    let (allocs, mask) = tree.get_allocs();
    // L4 at 0 leaves only 6 for the first L2, so the first way kept has L4 at 4.
    assert_eq!(tree_starts(allocs.as_slice()), vec![4, 0, 2]);
    tree_check_placement(allocs.as_slice(), &mask, 8);
    assert_eq!(mask.count(), 8);
    assert_eq!(tree.try_alloc(PdcchAggregation::L1, &space, Rnti(4)), Err(()));
    assert_eq!(tree.try_alloc(PdcchAggregation::L8, &space, Rnti(4)), Err(()));
}

#[test]
fn tree_stops_at_a_candidate_out_of_range() {
    // 7 does not leave room for a DCI below 6 CCEs: the candidates after it are not used.
    let mut tree = AllocationTree::new(6);
    assert_eq!(tree.try_alloc(PdcchAggregation::L1, &tree_l1_space(&[3, 7, 4]), Rnti(1)), Ok(()));
    assert_eq!(tree.try_alloc(PdcchAggregation::L1, &tree_l1_space(&[3, 7, 4]), Rnti(2)), Err(()));
    let (allocs, _) = tree.get_allocs();
    assert_eq!(tree_starts(allocs.as_slice()), vec![3]);
    let mut other = AllocationTree::new(6);
    assert_eq!(other.try_alloc(PdcchAggregation::L1, &tree_l1_space(&[7, 3]), Rnti(1)), Err(()));
    assert_eq!(other.try_alloc(PdcchAggregation::L2, &tree_l1_space(&[0]), Rnti(1)), Err(()));
}

#[test]
fn tree_empty_allocator_reports_nothing() {
    let s = PdcchSched::new([2, 4, 6]);
    let (allocs, mask, cfi) = s.get_allocs();
    assert_eq!(allocs.len(), 0);
    assert_eq!(mask, CceMask::new(2));
    assert_eq!(cfi, Cfi::One);
}

#[test]
fn tree_moves_to_the_next_cfi_when_one_is_full() {
    let mut s = PdcchSched::new([2, 4, 6]);
    s.new_tti();
    let space = tree_same_at_every_cfi(&[0, 1, 2, 3, 4, 5]);
    let mut seen = Vec::new();
    for id in 0..3u8 {
        assert_eq!(s.allocate_dci(PdcchAggregation::L1, &space, Rnti(100 + id as u16)), Ok(id));
        seen.push(s.current_cfi);
    }
    assert_eq!(seen, vec![Cfi::One, Cfi::One, Cfi::Two]);
    let (allocs, mask, cfi) = s.get_allocs();
    assert_eq!(cfi, Cfi::Two);
    assert_eq!(allocs.len(), 1);
    assert_eq!(allocs.as_slice()[0].rnti, Rnti(102));
    assert_eq!(mask.size(), 4);
    tree_check_placement(allocs.as_slice(), &mask, 4);
}

#[test]
fn tree_cfi_never_decreases_within_a_tti() {
    let mut s = PdcchSched::new([2, 4, 6]);
    s.new_tti();
    let space = tree_same_at_every_cfi(&[0, 1, 2, 3, 4, 5]);
    let mut last = s.current_cfi;
    let mut placed = 0;
    for r in 0..20u16 {
        let result = s.allocate_dci(PdcchAggregation::L1, &space, Rnti(r));
        assert!(s.current_cfi >= last);
        last = s.current_cfi;
        match result {
            Ok(id) => {
                assert_eq!(id, placed);
                placed += 1;
            }
            Err(e) => assert_eq!(e, AllocationError::NoCchSpace),
        }
    }
    assert_eq!(placed, 12);
    assert_eq!(last, Cfi::Three);
}

#[test]
fn tree_failed_call_keeps_the_placements() {
    let mut s = PdcchSched::new([0, 0, 3]);
    s.current_cfi = Cfi::Three;
    let space = tree_same_at_every_cfi(&[0, 1, 2]);
    for id in 0..3u8 {
        assert_eq!(s.allocate_dci(PdcchAggregation::L1, &space, Rnti(id as u16)), Ok(id));
    }
    let (before, before_mask, _) = s.get_allocs();
    assert_eq!(
        s.allocate_dci(PdcchAggregation::L1, &space, Rnti(9)),
        Err(AllocationError::NoCchSpace)
    );
    let (after, after_mask, cfi) = s.get_allocs();
    assert_eq!(cfi, Cfi::Three);
    assert_eq!(tree_starts(after.as_slice()), tree_starts(before.as_slice()));
    assert_eq!(after_mask, before_mask);
    // The identifier of the failed call is not used up.
    s.new_tti();
    assert_eq!(s.allocate_dci(PdcchAggregation::L1, &space, Rnti(9)), Ok(0));
}

#[test]
fn tree_level_without_room_is_not_placed() {
    let count_table: CceCountTable = [2, 4, 6];
    let rnti = Rnti(70);
    let search_space = calculate_search_space(&rnti, &count_table);
    let mut s = PdcchSched::new(count_table);
    s.new_tti();
    // Four CCEs do not fit into the two of CFI One: the DCI goes to CFI Two.
    assert_eq!(s.allocate_dci(PdcchAggregation::L4, &search_space[1], rnti), Ok(0));
    assert_eq!(s.current_cfi, Cfi::Two);
    // Eight CCEs fit nowhere.
    s.new_tti();
    assert_eq!(
        s.allocate_dci(PdcchAggregation::L8, &search_space[1], rnti),
        Err(AllocationError::NoCchSpace)
    );
    assert_eq!(s.current_cfi, Cfi::Three);
}

#[test]
fn tree_seventeenth_dci_is_refused() {
    let mut s = PdcchSched::new([32, 0, 0]);
    s.new_tti();
    for id in 0..16u8 {
        let space = tree_same_at_every_cfi(&[id]);
        assert_eq!(s.allocate_dci(PdcchAggregation::L1, &space, Rnti(id as u16)), Ok(id));
    }
    let space = tree_same_at_every_cfi(&[16]);
    assert_eq!(
        s.allocate_dci(PdcchAggregation::L1, &space, Rnti(16)),
        Err(AllocationError::NoCchSpace)
    );
    let mut tree = AllocationTree::new(32);
    for id in 0..16u8 {
        assert_eq!(tree.try_alloc(PdcchAggregation::L1, &tree_l1_space(&[id]), Rnti(1)), Ok(()));
    }
    assert_eq!(tree.try_alloc(PdcchAggregation::L1, &tree_l1_space(&[16]), Rnti(1)), Err(()));
    let (allocs, mask) = tree.get_allocs();
    assert_eq!(allocs.len(), 16);
    assert_eq!(mask.count(), 16);
}

#[test]
fn tree_new_tti_twice_is_new_tti_once() {
    let mut s = PdcchSched::new([2, 4, 6]);
    let space = tree_same_at_every_cfi(&[0, 1, 2, 3, 4, 5]);
    for r in 0..7u16 {
        s.allocate_dci(PdcchAggregation::L1, &space, Rnti(r)).unwrap();
    }
    assert_eq!(s.current_cfi, Cfi::Three);
    s.new_tti();
    let once = s.get_allocs();
    s.new_tti();
    let twice = s.get_allocs();
    assert_eq!(once.0.len(), 0);
    assert_eq!(twice.0.len(), 0);
    assert_eq!(once.1, twice.1);
    assert_eq!(once.2, Cfi::One);
    assert_eq!(twice.2, Cfi::One);
    assert_eq!(s.allocate_dci(PdcchAggregation::L1, &space, Rnti(7)), Ok(0));
}

#[test]
fn tree_increment_cfi_stops_at_three() {
    let mut s = PdcchSched::new([2, 4, 6]);
    assert_eq!(s.current_cfi, Cfi::One);
    assert_eq!(s.increment_cfi(), Ok(()));
    assert_eq!(s.current_cfi, Cfi::Two);
    assert_eq!(s.increment_cfi(), Ok(()));
    assert_eq!(s.current_cfi, Cfi::Three);
    assert_eq!(s.increment_cfi(), Err(AllocationError::NoCchSpace));
    assert_eq!(s.current_cfi, Cfi::Three);
}
