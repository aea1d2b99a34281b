use pdcch_sched::allocator::structures::{
    calculate_search_space, CceCountTable, PdcchAggregation, SearchSpace, MAX_PDCCH,
};
use pdcch_sched::types::cfi::Cfi;
use pdcch_sched::types::rnti::Rnti;

fn hashed_by_hand(rnti: u16, table: &CceCountTable) -> Vec<Vec<Vec<Vec<u8>>>> {
    let sizes: [u64; 4] = [1, 2, 4, 8];
    let counts: [u64; 4] = [6, 6, 2, 2];
    let mut y: u64 = rnti as u64;
    let mut out = Vec::new();
    for _sf in 0..10 {
        let mut per_sf = Vec::new();
        for cfi in 0..3 {
            let mut per_cfi = Vec::new();
            for level in 0..4 {
                let mut cell = Vec::new();
                let modulus = table[cfi] as u64 / sizes[level];
                if modulus != 0 {
                    for m in 0..counts[level] {
                        y = (39827 * y) % 65537;
                        cell.push((sizes[level] * ((y + m) % modulus)) as u8);
                    }
                }
                per_cfi.push(cell);
            }
            per_sf.push(per_cfi);
        }
        out.push(per_sf);
    }
    out
}

fn same_table(space: &SearchSpace, expected: &Vec<Vec<Vec<Vec<u8>>>>) -> bool {
    for sf in 0..10 {
        for cfi in 0..3 {
            for level in 0..4 {
                if space[sf][cfi][level].as_slice() != expected[sf][cfi][level].as_slice() {
                    return false;
                }
            }
        }
    }
    true
}

#[test]
fn aggregation_level_attributes() {
    let levels = PdcchAggregation::list();
    assert_eq!(
        levels,
        [PdcchAggregation::L1, PdcchAggregation::L2, PdcchAggregation::L4, PdcchAggregation::L8]
    );
    let sizes: Vec<usize> = levels.iter().map(|l| l.size()).collect();
    assert_eq!(sizes, vec![1, 2, 4, 8]);
    let locations: Vec<usize> = levels.iter().map(|l| l.location_count()).collect();
    assert_eq!(locations, vec![6, 6, 2, 2]);
    let common: Vec<usize> = levels.iter().map(|l| l.common_location_count()).collect();
    assert_eq!(common, vec![0, 0, 4, 2]);
    let indices: Vec<usize> = levels.iter().map(|l| l.index()).collect();
    assert_eq!(indices, vec![0, 1, 2, 3]);
    assert_eq!(PdcchAggregation::default(), PdcchAggregation::L1);
    assert_eq!(MAX_PDCCH, 16);
}

#[test]
fn cfi_values_are_ordered() {
    assert_eq!(Cfi::list(), [Cfi::One, Cfi::Two, Cfi::Three]);
    assert_eq!(Cfi::default(), Cfi::One);
    assert_eq!(Cfi::One.index(), 0);
    assert_eq!(Cfi::Two.index(), 1);
    assert_eq!(Cfi::Three.index(), 2);
    assert_eq!(Cfi::One.next(), Some(Cfi::Two));
    assert_eq!(Cfi::Two.next(), Some(Cfi::Three));
    assert_eq!(Cfi::Three.next(), None);
    assert!(Cfi::One < Cfi::Two && Cfi::Two < Cfi::Three);
}

#[test]
fn search_space_of_a_small_cell() {
    let table: CceCountTable = [2, 4, 6];
    let space = calculate_search_space(&Rnti(70), &table);
    assert_eq!(space[0][0][0].as_slice(), &[0, 0, 1, 0, 0, 1]);
    assert_eq!(space[1][0][0].as_slice(), &[0, 1, 0, 1, 0, 0]);
    assert_eq!(space[1][0][1].as_slice(), &[0, 0, 0, 0, 0, 0]);
    assert_eq!(space[1][1][0].as_slice(), &[3, 1, 0, 2, 0, 3]);
    assert_eq!(space[1][1][1].as_slice(), &[0, 2, 2, 2, 2, 0]);
    assert_eq!(space[1][1][2].as_slice(), &[0, 0]);
    assert_eq!(space[1][2][0].as_slice(), &[0, 0, 3, 0, 0, 4]);
    assert_eq!(space[9][2][0].as_slice(), &[3, 1, 0, 2, 0, 1]);
    assert_eq!(space[9][2][1].as_slice(), &[0, 0, 4, 0, 0, 0]);
}

#[test]
fn search_space_of_a_large_cell() {
    let table: CceCountTable = [21, 54, 87];
    let space = calculate_search_space(&Rnti(1), &table);
    assert_eq!(space[0][0][0].as_slice(), &[11, 15, 8, 3, 10, 1]);
    assert_eq!(space[0][0][1].as_slice(), &[2, 14, 8, 14, 16, 0]);
    assert_eq!(space[0][0][2].as_slice(), &[8, 4]);
    assert_eq!(space[0][0][3].as_slice(), &[0, 0]);
    assert_eq!(space[1][0][0].as_slice(), &[1, 5, 17, 0, 10, 2]);
    assert_eq!(space[1][2][3].as_slice(), &[32, 40]);
    let other = calculate_search_space(&Rnti(0x1234), &table);
    assert_eq!(other[9][2][3].as_slice(), &[24, 48]);
    assert_eq!(other[9][2][2].as_slice(), &[56, 16]);
    assert_eq!(other[5][1][1].as_slice(), &[32, 6, 0, 50, 50, 28]);
}

#[test]
fn hash_is_reproducible_by_hand() {
    let table: CceCountTable = [21, 54, 87];
    let space = calculate_search_space(&Rnti(0x1234), &table);
    let mut y: u32 = 0x1234;
    let mut by_hand = Vec::new();
    for m in 0..6u32 {
        y = (39827 * y) % 65537;
        by_hand.push(((y + m) % 21) as u8);
    }
    assert_eq!(space[0][0][0].as_slice(), by_hand.as_slice());
    assert_eq!(space[0][0][0].as_slice(), &[4, 20, 1, 14, 4, 17]);
}

#[test]
fn search_space_follows_the_running_hash_state() {
    let tables: [CceCountTable; 5] =
        [[2, 4, 6], [21, 54, 87], [6, 6, 6], [0, 0, 0], [255, 255, 255]];
    for table in tables.iter() {
        for rnti in [0u16, 1, 70, 0x1234, 65535] {
            let space = calculate_search_space(&Rnti(rnti), table);
            assert!(same_table(&space, &hashed_by_hand(rnti, table)));
        }
    }
}

#[test]
fn search_space_depends_on_its_arguments_alone() {
    let table: CceCountTable = [21, 54, 87];
    let first = calculate_search_space(&Rnti(4711), &table);
    let second = calculate_search_space(&Rnti(4711), &table);
    assert_eq!(first, second);
    let other_ue = calculate_search_space(&Rnti(4712), &table);
    assert_ne!(first, other_ue);
}

#[test]
fn level_without_room_has_no_candidates() {
    let table: CceCountTable = [2, 4, 6];
    let space = calculate_search_space(&Rnti(70), &table);
    for sf in 0..10 {
        assert_eq!(space[sf][0][2].len(), 0);
        assert_eq!(space[sf][0][3].len(), 0);
        assert_eq!(space[sf][1][2].len(), 2);
        assert_eq!(space[sf][1][3].len(), 0);
        assert_eq!(space[sf][2][3].len(), 0);
    }
    let empty = calculate_search_space(&Rnti(70), &[0, 0, 0]);
    for sf in 0..10 {
        for cfi in 0..3 {
            for level in 0..4 {
                assert!(empty[sf][cfi][level].is_empty());
            }
        }
    }
}

#[test]
fn candidates_are_aligned_and_in_range() {
    let table: CceCountTable = [21, 54, 87];
    let sizes: [usize; 4] = [1, 2, 4, 8];
    for rnti in [1u16, 70, 0x1234, 65535] {
        let space = calculate_search_space(&Rnti(rnti), &table);
        for sf in 0..10 {
            for cfi in 0..3 {
                for level in 0..4 {
                    for start in space[sf][cfi][level].as_slice() {
                        assert_eq!(*start as usize % sizes[level], 0);
                        assert!(*start as usize + sizes[level] <= table[cfi] as usize);
                    }
                }
            }
        }
    }
}
