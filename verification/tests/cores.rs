use freecores::cores::{free_cores, taken_cores, AffinityRecord};
use std::collections::HashSet;

fn record(process: &str, core: u32) -> AffinityRecord {
    AffinityRecord { process: String::from(process), core }
}

fn set(cores: &[u32]) -> HashSet<u32> {
    cores.iter().copied().collect()
}

#[test]
fn taken_cores_are_merged() {
    let records = vec![record("10", 3), record("11", 1), record("12", 3), record("13", 0)];
    assert_eq!(taken_cores(&records), set(&[0, 1, 3]));
}

#[test]
fn no_records_no_taken_cores() {
    assert_eq!(taken_cores(&Vec::new()), HashSet::new());
}

#[test]
fn free_cores_are_the_untaken_candidates() {
    assert_eq!(free_cores(&vec![0, 1, 2, 3], &set(&[1, 3])), vec![0, 2]);
}

#[test]
fn free_cores_keep_order_and_duplicates() {
    assert_eq!(free_cores(&vec![5, 2, 9, 2, 7, 5, 5], &set(&[9, 7, 100])), vec![5, 2, 2, 5, 5]);
    assert_eq!(free_cores(&vec![3, 3, 3], &set(&[3])), Vec::<u32>::new());
}

#[test]
fn nothing_taken_leaves_every_candidate() {
    assert_eq!(free_cores(&vec![4, 1, 4], &HashSet::new()), vec![4, 1, 4]);
}

#[test]
fn no_candidates_no_free_cores() {
    assert_eq!(free_cores(&Vec::new(), &set(&[1, 2])), Vec::<u32>::new());
}

#[test]
fn everything_taken_leaves_nothing() {
    assert_eq!(free_cores(&vec![5], &set(&[5])), Vec::<u32>::new());
}
