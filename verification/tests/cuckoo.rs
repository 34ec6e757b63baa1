use rokv::cuckoo::{assemble_cuckoo, try_assemble_cuckoo, Entry, PlacementError};

#[derive(Copy, Clone, Debug)]
struct TestEntry {
    h1: u64,
    h2: u64,
}

impl Entry for TestEntry {
    fn h1_spec(&self) -> usize {
        self.h1 as usize
    }
    fn h2_spec(&self) -> usize {
        self.h2 as usize
    }
    fn h1(&self) -> usize {
        self.h1 as usize
    }
    fn h2(&self) -> usize {
        self.h2 as usize
    }
}

fn entries(hashes: &[(u64, u64)]) -> Vec<TestEntry> {
    hashes.iter().map(|&(h1, h2)| TestEntry { h1, h2 }).collect()
}

#[test]
fn smoke() {
    let input = vec![
        TestEntry { h1: 1, h2: 2 },
        TestEntry { h1: 3, h2: 4 },
        TestEntry { h1: 1, h2: 3 },
        TestEntry { h1: 2, h2: 4 },
    ];
    let table = assemble_cuckoo(&input, 2 * input.len()).unwrap();
    for (i, e) in input.iter().enumerate() {
        let s1 = table[e.h1() % table.len()];
        let s2 = table[e.h2() % table.len()];
        assert!(
            s1 == Some(i) || s2 == Some(i),
            "item {} == {:?} -> [{:?}, {:?}]",
            i,
            e,
            s1,
            s2
        );
    }
}

#[test]
fn eviction_moves_the_occupant_to_its_other_home() {
    let input = entries(&[(1, 2), (3, 4), (1, 3), (2, 4)]);
    let table = assemble_cuckoo(&input, 8).unwrap();
    assert_eq!(
        table,
        vec![None, Some(0), Some(3), Some(2), Some(1), None, None, None]
    );
}

#[test]
fn hashes_are_taken_modulo_the_capacity() {
    let input = entries(&[(10, 3), (7, 21)]);
    let table = assemble_cuckoo(&input, 4).unwrap();
    assert_eq!(table, vec![None, None, Some(0), Some(1)]);
}

#[test]
fn no_entries_need_no_cells() {
    let input: Vec<TestEntry> = Vec::new();
    assert_eq!(assemble_cuckoo(&input, 0).unwrap(), Vec::<Option<usize>>::new());
    assert_eq!(assemble_cuckoo(&input, 3).unwrap(), vec![None, None, None]);
}

#[test]
fn two_entries_with_the_same_homes_fit() {
    let input = entries(&[(1, 2), (1, 2)]);
    let table = assemble_cuckoo(&input, 4).unwrap();
    assert_eq!(table, vec![None, Some(0), Some(1), None]);
}

#[test]
fn three_entries_with_the_same_homes_fail() {
    let input = entries(&[(5, 6), (1, 2), (1, 2), (1, 2)]);
    let err = assemble_cuckoo(&input, 8).unwrap_err();
    assert_eq!(err, PlacementError { index: 3 });
}

#[test]
fn the_first_capacity_that_fits_is_taken() {
    // In two cells all three collide; in three cells each has a cell of its own.
    let input = entries(&[(0, 0), (2, 2), (4, 4)]);
    assert!(assemble_cuckoo(&input, 2).is_err());
    let table = try_assemble_cuckoo(&input, &[2, 3, 5]).unwrap();
    assert_eq!(table, vec![Some(0), Some(2), Some(1)]);
}

#[test]
fn every_failed_capacity_is_listed() {
    let input = entries(&[(1, 2), (1, 2), (1, 2)]);
    let err = try_assemble_cuckoo(&input, &[6, 9, 12, 15]).unwrap_err();
    assert_eq!(err.attempts, vec![PlacementError { index: 2 }; 4]);
    let none = try_assemble_cuckoo(&input, &[]).unwrap_err();
    assert!(none.attempts.is_empty());
}
