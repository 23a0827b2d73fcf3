use memscan::access::AccessError;
use memscan::region::MemoryRegion;
use memscan::scan::{initial_scan, merge, scan_read, scan_region};
use memscan::value_test::{bytes_equal, Exact, Predicate, ValueTest};

fn fixture() -> Vec<u8> {
    vec![1, 0, 0, 0, 2, 0, 0, 0, 3, 0, 0, 0, 4, 0, 0, 0]
}

fn exact(value: &[u8]) -> Exact {
    Exact::new(value.to_vec()).unwrap()
}

fn noise(len: usize, seed: u64) -> Vec<u8> {
    let mut state = seed;
    let mut out = Vec::with_capacity(len);
    for _ in 0..len {
        state = state.wrapping_mul(6364136223846793005).wrapping_add(1442695040888963407);
        out.push((state >> 33) as u8 % 4);
    }
    out
}

#[test]
fn scan_finds_the_four_byte_value_two() {
    assert_eq!(scan_region(0x1000, &fixture(), &exact(&[2, 0, 0, 0])), vec![0x1004]);
}

#[test]
fn scan_reaches_the_last_whole_window() {
    assert_eq!(scan_region(0x1000, &fixture(), &exact(&[4, 0, 0, 0])), vec![0x100c]);
}

#[test]
fn scan_starts_no_window_in_the_trailing_bytes() {
    let bytes = [2, 0, 0, 0, 2, 0, 0];
    assert_eq!(scan_region(0x2000, &bytes, &exact(&[2, 0, 0, 0])), vec![0x2000]);
}

#[test]
fn scan_of_a_region_shorter_than_the_value_finds_nothing() {
    assert_eq!(scan_region(0x2000, &[2, 0, 0], &exact(&[2, 0, 0, 0])), Vec::<usize>::new());
    assert_eq!(scan_region(0x2000, &[], &exact(&[2])), Vec::<usize>::new());
}

#[test]
fn scan_of_a_region_as_long_as_the_value_tries_one_window() {
    assert_eq!(scan_region(7, &[9, 8], &exact(&[9, 8])), vec![7]);
    assert_eq!(scan_region(7, &[9, 8], &exact(&[8, 9])), Vec::<usize>::new());
}

#[test]
fn scan_reports_overlapping_windows() {
    assert_eq!(scan_region(100, &[5, 5, 5, 5], &exact(&[5, 5])), vec![100, 101, 102]);
}

#[test]
fn scan_reports_addresses_in_ascending_order() {
    let found = scan_region(0x1000, &fixture(), &exact(&[0]));
    assert_eq!(
        found,
        vec![0x1001, 0x1002, 0x1003, 0x1005, 0x1006, 0x1007, 0x1009, 0x100a, 0x100b, 0x100d, 0x100e, 0x100f]
    );
}

#[test]
fn scan_with_a_predicate_reports_every_passing_offset() {
    let test = Predicate::new(2, |w: &[u8]| w[0] == 0 && w[1] == 0).unwrap();
    assert_eq!(
        scan_region(0x1000, &fixture(), &test),
        vec![0x1001, 0x1002, 0x1005, 0x1006, 0x1009, 0x100a, 0x100d, 0x100e]
    );
}

#[test]
fn scan_with_a_typed_predicate_sees_the_value_in_place() {
    let test = Predicate::new(4, |w: &[u8]| {
        let value = u32::from_le_bytes([w[0], w[1], w[2], w[3]]);
        3 <= value && value <= 0x200
    })
    .unwrap();
    assert_eq!(scan_region(0x1000, &fixture(), &test), vec![0x1003, 0x1008, 0x100c]);
}

#[test]
fn scan_agrees_with_a_window_by_window_search() {
    for seed in 0..40u64 {
        let len = (seed as usize * 7) % 53;
        let bytes = noise(len, seed);
        for width in 1..5usize {
            let test = Predicate::new(width, |w: &[u8]| w.iter().map(|b| *b as u32).sum::<u32>() % 3 == 1).unwrap();
            let mut expected = Vec::new();
            let mut o = 0;
            while o + width <= bytes.len() {
                if bytes[o..o + width].iter().map(|b| *b as u32).sum::<u32>() % 3 == 1 {
                    expected.push(0x4000 + o);
                }
                o += 1;
            }
            assert_eq!(scan_region(0x4000, &bytes, &test), expected);
        }
    }
}

#[test]
fn scan_up_to_the_top_of_the_address_space() {
    let start = usize::MAX - 4;
    assert_eq!(scan_region(start, &[1, 2, 1, 2], &exact(&[1, 2])), vec![start, start + 2]);
}

#[test]
fn exact_test_has_the_width_of_its_value() {
    let test = exact(&[1, 2, 3]);
    assert_eq!(test.size(), 3);
    assert!(test.check(&[1, 2, 3]));
    assert!(!test.check(&[1, 2, 4]));
}

#[test]
fn there_is_no_test_for_a_value_of_no_bytes() {
    assert!(Exact::new(Vec::new()).is_none());
    assert!(Predicate::new(0, |_w: &[u8]| true).is_none());
}

#[test]
fn predicate_test_applies_the_predicate() {
    let test = Predicate::new(1, |w: &[u8]| w[0] > 10).unwrap();
    assert_eq!(test.size(), 1);
    assert!(test.check(&[11]));
    assert!(!test.check(&[10]));
}

#[test]
fn bytes_equal_compares_length_and_content() {
    assert!(bytes_equal(&[], &[]));
    assert!(bytes_equal(&[1, 2], &[1, 2]));
    assert!(!bytes_equal(&[1, 2], &[1, 3]));
    assert!(!bytes_equal(&[1, 2], &[1, 2, 0]));
}

#[test]
fn scan_read_scans_a_region_that_was_read_whole() {
    let region = MemoryRegion { start: 0x1000, end: 0x1010 };
    assert_eq!(scan_read(&region, &Ok(fixture()), &exact(&[3, 0, 0, 0])), vec![0x1008]);
}

#[test]
fn scan_read_passes_over_a_failed_read() {
    let region = MemoryRegion { start: 0x1000, end: 0x1010 };
    let read = Err(AccessError::Refused { errno: 14 });
    assert_eq!(scan_read(&region, &read, &exact(&[3, 0, 0, 0])), Vec::<usize>::new());
}

#[test]
fn scan_read_passes_over_a_read_of_the_wrong_length() {
    let region = MemoryRegion { start: 0x1000, end: 0x1020 };
    assert_eq!(scan_read(&region, &Ok(fixture()), &exact(&[3, 0, 0, 0])), Vec::<usize>::new());
    let inverted = MemoryRegion { start: 0x1010, end: 0x1000 };
    assert_eq!(scan_read(&inverted, &Ok(fixture()), &exact(&[3, 0, 0, 0])), Vec::<usize>::new());
}

#[test]
fn merge_joins_the_lists_in_order() {
    assert_eq!(merge(&vec![vec![3, 1], vec![], vec![2]]), vec![3, 1, 2]);
    assert_eq!(merge(&Vec::new()), Vec::<usize>::new());
}

#[test]
fn initial_scan_skips_a_region_whose_read_failed() {
    let regions = vec![
        MemoryRegion { start: 0x1000, end: 0x1004 },
        MemoryRegion { start: 0x2000, end: 0x2004 },
        MemoryRegion { start: 0x3000, end: 0x3008 },
    ];
    let reads = vec![
        Ok(vec![7, 0, 7, 0]),
        Err(AccessError::Refused { errno: 14 }),
        Ok(vec![0, 0, 7, 0, 0, 0, 7, 0]),
    ];
    let found = initial_scan(&regions, &reads, &exact(&[7, 0]));
    assert_eq!(found, vec![0x1000, 0x1002, 0x3002, 0x3006]);
}

#[test]
fn initial_scan_skips_a_region_that_was_read_short() {
    let regions = vec![
        MemoryRegion { start: 0x1000, end: 0x1004 },
        MemoryRegion { start: 0x2000, end: 0x2004 },
    ];
    let reads = vec![Ok(vec![7, 0, 7]), Ok(vec![7, 0, 7, 0])];
    assert_eq!(initial_scan(&regions, &reads, &exact(&[7, 0])), vec![0x2000, 0x2002]);
}

#[test]
fn initial_scan_counts_a_region_without_a_read_as_unreadable() {
    let regions = vec![
        MemoryRegion { start: 0x1000, end: 0x1002 },
        MemoryRegion { start: 0x2000, end: 0x2002 },
    ];
    let reads = vec![Ok(vec![7, 0])];
    assert_eq!(initial_scan(&regions, &reads, &exact(&[7, 0])), vec![0x1000]);
}

#[test]
fn initial_scan_of_no_region_finds_nothing() {
    let found = initial_scan(&Vec::new(), &Vec::new(), &exact(&[7, 0]));
    assert_eq!(found, Vec::<usize>::new());
}

#[test]
fn every_candidate_lies_a_whole_value_inside_its_region() {
    let regions = vec![
        MemoryRegion { start: 0x1000, end: 0x1010 },
        MemoryRegion { start: 0x8000, end: 0x8005 },
    ];
    let reads = vec![Ok(noise(16, 3)), Ok(noise(5, 4))];
    let test = Predicate::new(3, |w: &[u8]| w[0] <= w[2]).unwrap();
    let found = initial_scan(&regions, &reads, &test);
    assert!(!found.is_empty());
    for address in found {
        assert!(regions.iter().any(|r| r.start <= address && address + 3 <= r.end));
    }
}

#[test]
fn initial_scan_of_one_region_finds_exactly_the_passing_windows() {
    for seed in 0..25u64 {
        let len = 1 + (seed as usize * 11) % 40;
        let bytes = noise(len, seed + 100);
        let start = 0x7000 + seed as usize;
        let regions = vec![MemoryRegion { start, end: start + len }];
        let reads = vec![Ok(bytes.clone())];
        for width in 1..4usize {
            let test = Predicate::new(width, |w: &[u8]| w[0] == w[w.len() - 1]).unwrap();
            let expected: Vec<usize> = (0..len)
                .filter(|o| o + width <= len && bytes[*o] == bytes[*o + width - 1])
                .map(|o| start + o)
                .collect();
            assert_eq!(initial_scan(&regions, &reads, &test), expected);
        }
    }
}
