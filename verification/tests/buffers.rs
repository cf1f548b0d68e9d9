use chunk_pipeline::buffer::{extract, fill, holds, is_uniform, repeat, update};
use chunk_pipeline::layout::{element_count, has_empty_axis};
use chunk_pipeline::ArraySubset;

fn counting(n: usize) -> Vec<u8> {
    (0..n).map(|i| i as u8).collect()
}

#[test]
fn element_count_multiplies_the_axes() {
    assert_eq!(element_count(&[3, 4]), Some(12));
    assert_eq!(element_count(&[]), Some(1));
    assert_eq!(element_count(&[7, 0, 9]), Some(0));
    assert_eq!(element_count(&[u64::MAX, 2]), None);
    assert_eq!(element_count(&[u64::MAX, 2, 0]), Some(0));
}

#[test]
fn empty_axis_is_found() {
    assert!(has_empty_axis(&[2, 0]));
    assert!(!has_empty_axis(&[2, 1]));
    assert!(!has_empty_axis(&[]));
}

#[test]
fn subset_reports_its_ranges() {
    let subset = ArraySubset::new_with_ranges(&[1..3, 4..4, 7..5]);
    assert_eq!(subset.dimensionality(), 3);
    assert_eq!(subset.start(), &vec![1, 4, 7]);
    assert_eq!(subset.shape(), &vec![2, 0, 0]);
    assert_eq!(subset.num_elements(), Some(0));
    let copy = subset.clone();
    assert_eq!(copy.start(), subset.start());
    assert_eq!(copy.shape(), subset.shape());
}

#[test]
fn subset_without_axes_holds_one_element() {
    let subset = ArraySubset::new_with_ranges(&[]);
    assert_eq!(subset.dimensionality(), 0);
    assert_eq!(subset.num_elements(), Some(1));
    assert!(subset.inbounds(&[]));
    assert!(subset.is_whole(&[]));
    assert!(!subset.inbounds(&[1]));
}

#[test]
fn subset_bounds_are_checked_per_axis() {
    let subset = ArraySubset::new_with_ranges(&[1..3, 0..4]);
    assert!(subset.inbounds(&[3, 4]));
    assert!(subset.inbounds(&[5, 9]));
    assert!(!subset.inbounds(&[2, 4]));
    assert!(!subset.inbounds(&[3, 4, 1]));
    assert!(!subset.is_whole(&[3, 4]));
    assert!(ArraySubset::new_with_ranges(&[0..3, 0..4]).is_whole(&[3, 4]));
    assert!(!ArraySubset::new_with_ranges(&[0..3, 0..4]).is_whole(&[3, 5]));
}

#[test]
fn extract_reads_rows_of_a_plane() {
    let base = counting(12);
    let subset = ArraySubset::new_with_ranges(&[1..3, 1..3]);
    assert_eq!(extract(&base, &[3, 4], &subset, 1), vec![5, 6, 9, 10]);
}

#[test]
fn extract_keeps_the_bytes_of_an_element_together() {
    let base = counting(24);
    let subset = ArraySubset::new_with_ranges(&[1..3, 1..3]);
    assert_eq!(extract(&base, &[3, 4], &subset, 2), vec![10, 11, 12, 13, 18, 19, 20, 21]);
}

#[test]
fn extract_of_three_axes() {
    let base = counting(24);
    let subset = ArraySubset::new_with_ranges(&[1..2, 0..3, 2..4]);
    assert_eq!(extract(&base, &[2, 3, 4], &subset, 1), vec![14, 15, 18, 19, 22, 23]);
}

#[test]
fn extract_of_the_whole_is_the_buffer() {
    let base = counting(12);
    let subset = ArraySubset::new_with_ranges(&[0..3, 0..4]);
    assert_eq!(extract(&base, &[3, 4], &subset, 1), base);
}

#[test]
fn extract_of_an_empty_region_is_empty() {
    let base = counting(12);
    let subset = ArraySubset::new_with_ranges(&[1..1, 0..4]);
    assert_eq!(extract(&base, &[3, 4], &subset, 1), Vec::<u8>::new());
}

#[test]
fn extract_of_a_scalar_is_its_element() {
    let subset = ArraySubset::new_with_ranges(&[]);
    assert_eq!(extract(&[7, 8, 9, 10], &[], &subset, 4), vec![7, 8, 9, 10]);
}

#[test]
fn update_writes_the_region_only() {
    let mut base = vec![0u8; 12];
    let subset = ArraySubset::new_with_ranges(&[1..3, 1..3]);
    update(&mut base, &[3, 4], &subset, 1, &[1, 2, 3, 4]);
    assert_eq!(base, vec![0, 0, 0, 0, 0, 1, 2, 0, 0, 3, 4, 0]);
}

#[test]
fn update_with_wide_elements() {
    let mut base = vec![0u8; 12];
    let subset = ArraySubset::new_with_ranges(&[0..2, 1..2]);
    update(&mut base, &[2, 3], &subset, 2, &[1, 2, 3, 4]);
    assert_eq!(base, vec![0, 0, 1, 2, 0, 0, 0, 0, 3, 4, 0, 0]);
}

#[test]
fn extract_after_update_gives_back_the_data() {
    let mut base = counting(60);
    let subset = ArraySubset::new_with_ranges(&[1..3, 0..2, 2..5]);
    let data: Vec<u8> = (100..112).collect();
    update(&mut base, &[3, 4, 5], &subset, 1, &data);
    assert_eq!(extract(&base, &[3, 4, 5], &subset, 1), data);
}

#[test]
fn updates_of_disjoint_regions_commute() {
    let left = ArraySubset::new_with_ranges(&[0..3, 0..2]);
    let right = ArraySubset::new_with_ranges(&[0..3, 2..4]);
    let a: Vec<u8> = (10..16).collect();
    let b: Vec<u8> = (20..26).collect();
    let mut first = vec![0u8; 12];
    update(&mut first, &[3, 4], &left, 1, &a);
    update(&mut first, &[3, 4], &right, 1, &b);
    let mut second = vec![0u8; 12];
    update(&mut second, &[3, 4], &right, 1, &b);
    update(&mut second, &[3, 4], &left, 1, &a);
    assert_eq!(first, second);
    assert_eq!(first, vec![10, 11, 20, 21, 12, 13, 22, 23, 14, 15, 24, 25]);
}

#[test]
fn fill_sets_every_element_of_the_region() {
    let mut base = vec![0u8; 12];
    let subset = ArraySubset::new_with_ranges(&[1..3]);
    fill(&mut base, &[3], &subset, &[1, 2, 3, 4]);
    assert_eq!(base, vec![0, 0, 0, 0, 1, 2, 3, 4, 1, 2, 3, 4]);
}

#[test]
fn repeat_copies_the_value() {
    assert_eq!(repeat(&[1, 2], 3), vec![1, 2, 1, 2, 1, 2]);
    assert_eq!(repeat(&[1, 2], 0), Vec::<u8>::new());
    assert_eq!(repeat(&[], 5), Vec::<u8>::new());
}

#[test]
fn uniform_buffers_are_recognised() {
    assert!(is_uniform(&[1, 2, 1, 2], &[1, 2]));
    assert!(is_uniform(&[1, 2], &[1, 2]));
    assert!(!is_uniform(&[1, 2, 1, 3], &[1, 2]));
    assert!(!is_uniform(&[1, 2, 1], &[1, 2]));
    assert!(!is_uniform(&[], &[1, 2]));
    assert!(is_uniform(&[], &[]));
    assert!(!is_uniform(&[1], &[]));
}

#[test]
fn holds_compares_bytes_with_the_shape() {
    assert!(holds(24, &[3, 4], 2));
    assert!(!holds(23, &[3, 4], 2));
    assert!(holds(4, &[], 4));
    assert!(holds(0, &[3, 0], 8));
    assert!(holds(0, &[u64::MAX, u64::MAX], 0));
    assert!(!holds(0, &[u64::MAX, u64::MAX], 1));
}
