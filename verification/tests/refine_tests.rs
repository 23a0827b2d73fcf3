use memscan::access::AccessError;
use memscan::refine::{judge, mark, refine, remove_marked};
use memscan::scan::scan_region;
use memscan::value_test::{Exact, Predicate};

fn four(value: u32) -> Exact {
    Exact::new(value.to_le_bytes().to_vec()).unwrap()
}

fn seen(value: u32) -> Result<Vec<u8>, AccessError> {
    Ok(value.to_le_bytes().to_vec())
}

#[test]
fn refine_removes_the_candidate_whose_value_changed() {
    let bytes = [1, 0, 0, 0, 2, 0, 0, 0, 3, 0, 0, 0, 4, 0, 0, 0];
    let mut candidates = scan_region(0x1000, &bytes, &four(2));
    assert_eq!(candidates, vec![0x1004]);
    refine(&mut candidates, &vec![seen(5)], &four(2));
    assert_eq!(candidates, Vec::<usize>::new());
}

#[test]
fn refine_keeps_the_candidates_that_still_pass() {
    let mut candidates = vec![0x10, 0x20, 0x30, 0x40];
    let observations = vec![seen(2), seen(9), seen(2), seen(0)];
    refine(&mut candidates, &observations, &four(2));
    assert_eq!(candidates, vec![0x10, 0x30]);
}

#[test]
fn refine_removes_a_candidate_that_could_not_be_read() {
    let mut candidates = vec![0x10, 0x20, 0x30];
    let observations = vec![
        seen(2),
        Err(AccessError::Refused { errno: 14 }),
        Err(AccessError::Partial { wanted: 4, moved: 2 }),
    ];
    refine(&mut candidates, &observations, &four(2));
    assert_eq!(candidates, vec![0x10]);
}

#[test]
fn refine_removes_a_candidate_observed_with_the_wrong_width() {
    let mut candidates = vec![0x10, 0x20];
    let observations = vec![Ok(vec![2, 0, 0]), seen(2)];
    refine(&mut candidates, &observations, &four(2));
    assert_eq!(candidates, vec![0x20]);
}

#[test]
fn refine_removes_a_candidate_without_an_observation() {
    let mut candidates = vec![0x10, 0x20, 0x30];
    refine(&mut candidates, &vec![seen(2)], &four(2));
    assert_eq!(candidates, vec![0x10]);
}

#[test]
fn refine_with_a_predicate() {
    let test = Predicate::new(4, |w: &[u8]| u32::from_le_bytes([w[0], w[1], w[2], w[3]]) > 100).unwrap();
    let mut candidates = vec![1, 2, 3, 4, 5];
    let observations = vec![seen(100), seen(101), seen(7), seen(4000), seen(0)];
    refine(&mut candidates, &observations, &test);
    assert_eq!(candidates, vec![2, 4]);
}

#[test]
fn refine_twice_against_an_unchanged_target_is_refine_once() {
    let addresses: Vec<usize> = (0..24).map(|i| 0x5000 + 4 * i).collect();
    let memory: Vec<u32> = (0..24).map(|i| (i * 5) % 3).collect();
    let observe = |candidates: &Vec<usize>| -> Vec<Result<Vec<u8>, AccessError>> {
        candidates.iter().map(|a| seen(memory[(a - 0x5000) / 4])).collect()
    };
    let mut once = addresses.clone();
    refine(&mut once, &observe(&addresses), &four(1));
    let mut twice = once.clone();
    refine(&mut twice, &observe(&once), &four(1));
    assert_eq!(twice, once);
    assert_eq!(once.len(), 8);
}

#[test]
fn mark_lists_the_failing_indices_in_ascending_order() {
    let observations = vec![seen(9), seen(2), Err(AccessError::Refused { errno: 3 }), seen(2), seen(1)];
    assert_eq!(mark(5, &observations, &four(2)), vec![0, 2, 4]);
    assert_eq!(mark(7, &observations, &four(2)), vec![0, 2, 4, 5, 6]);
    assert_eq!(mark(0, &observations, &four(2)), Vec::<usize>::new());
}

#[test]
fn remove_marked_takes_marks_in_any_order() {
    let mut candidates = vec![10, 11, 12, 13, 14];
    remove_marked(&mut candidates, vec![0, 3, 1]);
    assert_eq!(candidates, vec![12, 14]);
}

#[test]
fn remove_marked_with_no_marks_changes_nothing() {
    let mut candidates = vec![10, 11, 12];
    remove_marked(&mut candidates, Vec::new());
    assert_eq!(candidates, vec![10, 11, 12]);
}

#[test]
fn remove_marked_with_every_index_marked_leaves_nothing() {
    let mut candidates = vec![10, 11, 12];
    remove_marked(&mut candidates, vec![2, 0, 1]);
    assert_eq!(candidates, Vec::<usize>::new());
}

#[test]
fn remove_marked_passes_over_repeated_and_foreign_marks() {
    let mut candidates = vec![10, 11, 12, 13];
    remove_marked(&mut candidates, vec![2, 9, 2, 4, usize::MAX, 0, 0]);
    assert_eq!(candidates, vec![11, 13]);
}

#[test]
fn remove_marked_leaves_the_complement_for_every_subset() {
    for n in 0..9usize {
        let candidates: Vec<usize> = (0..n).map(|i| 100 + i * i).collect();
        for subset in 0..(1u32 << n) {
            let mut marks: Vec<usize> = (0..n).filter(|i| subset & (1 << i) != 0).collect();
            let shift = (subset as usize) % (marks.len().max(1));
            marks.rotate_left(shift);
            if subset % 3 == 0 {
                marks.reverse();
            }
            let expected: Vec<usize> =
                (0..n).filter(|i| subset & (1 << i) == 0).map(|i| candidates[i]).collect();
            let mut left = candidates.clone();
            remove_marked(&mut left, marks);
            assert_eq!(left, expected);
        }
    }
}

#[test]
fn remove_marked_leaves_the_complement_for_scattered_marks() {
    let n = 500usize;
    let candidates: Vec<usize> = (0..n).map(|i| 7 * i + 1).collect();
    let mut state = 12345u64;
    let mut marked = vec![false; n];
    let mut marks = Vec::new();
    for _ in 0..300 {
        state = state.wrapping_mul(6364136223846793005).wrapping_add(1442695040888963407);
        let i = (state >> 33) as usize % n;
        if !marked[i] {
            marked[i] = true;
            marks.push(i);
        }
    }
    let expected: Vec<usize> = (0..n).filter(|i| !marked[*i]).map(|i| candidates[i]).collect();
    let mut left = candidates.clone();
    remove_marked(&mut left, marks);
    assert_eq!(left, expected);
}

#[test]
fn judge_keeps_only_what_was_read_whole_and_passes() {
    assert!(judge(&seen(2), &four(2)));
    assert!(!judge(&seen(3), &four(2)));
    assert!(!judge(&Ok(vec![2, 0]), &four(2)));
    assert!(!judge(&Err(AccessError::Refused { errno: 14 }), &four(2)));
    assert!(!judge(&Err(AccessError::Partial { wanted: 4, moved: 0 }), &four(2)));
}
