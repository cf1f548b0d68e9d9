use chunk_pipeline::{PipelineError, Selection, ZarrsPythonArray};

fn array() -> ZarrsPythonArray {
    ZarrsPythonArray { shape: vec![3, 4] }
}

#[test]
fn negative_index_is_counted_from_the_end_of_its_axis() {
    let a = array();
    assert_eq!(a.maybe_convert_u64(-1, 0), Ok(2));
    assert_eq!(a.maybe_convert_u64(-1, 1), Ok(3));
    assert_eq!(a.maybe_convert_u64(-4, 1), Ok(0));
    assert_eq!(a.maybe_convert_u64(2, 0), Ok(2));
    assert_eq!(a.maybe_convert_u64(-4, 0), Err(PipelineError::OutOfBounds));
    assert_eq!(a.maybe_convert_u64(0, 2), Err(PipelineError::OutOfBounds));
}

#[test]
fn slice_is_bound_to_its_axis() {
    let a = array();
    assert_eq!(a.bound_slice(None, None, None, 1), Ok(0..4));
    assert_eq!(a.bound_slice(Some(1), Some(-1), Some(1), 1), Ok(1..3));
    assert_eq!(a.bound_slice(Some(1), None, None, 0), Ok(1..3));
    assert_eq!(a.bound_slice(Some(-5), None, None, 1), Err(PipelineError::OutOfBounds));
    assert_eq!(a.bound_slice(None, None, None, 2), Err(PipelineError::OutOfBounds));
    assert_eq!(a.bound_slice(None, None, Some(2), 2), Err(PipelineError::OutOfBounds));
}

#[test]
fn slice_with_a_step_other_than_one_is_refused() {
    let a = array();
    assert_eq!(a.bound_slice(None, None, Some(2), 1), Err(PipelineError::UnsupportedSelection));
    assert_eq!(a.bound_slice(Some(1), Some(3), Some(-1), 0), Err(PipelineError::UnsupportedSelection));
    assert_eq!(a.bound_slice(Some(-9), None, Some(0), 0), Err(PipelineError::UnsupportedSelection));
}

#[test]
fn selection_becomes_a_region_of_every_axis() {
    let a = array();
    let row = a.subset(&[Selection::Index(-2)]).unwrap();
    assert_eq!(row.start(), &vec![1, 0]);
    assert_eq!(row.shape(), &vec![1, 4]);
    let cell = a.subset(&[Selection::Index(0), Selection::Index(-4)]).unwrap();
    assert_eq!(cell.start(), &vec![0, 0]);
    assert_eq!(cell.shape(), &vec![1, 1]);
    assert_eq!(a.subset(&[Selection::Index(-4)]).unwrap_err(), PipelineError::OutOfBounds);
}

#[test]
fn missing_axes_are_selected_whole() {
    let a = array();
    assert_eq!(a.fill_from_slices(vec![]), vec![0..3, 0..4]);
    assert_eq!(a.fill_from_slices(vec![1..2]), vec![1..2, 0..4]);
    assert_eq!(a.fill_from_slices(vec![1..2, 2..3]), vec![1..2, 2..3]);
    assert_eq!(a.fill_from_slices(vec![1..2, 2..3, 5..6]), vec![1..2, 2..3]);
}

#[test]
fn selection_reads_a_block() {
    let a = array();
    let decoded: Vec<u8> = (0..12).collect();
    let row = a.retrieve_chunk_subset(&[Selection::Index(-1)], &decoded, 1).unwrap();
    assert_eq!(row.data(), &vec![8, 9, 10, 11]);
    assert_eq!(row.shape(), &vec![1, 4]);
    assert_eq!(row.byte_offset(), 0);
    let block = a
        .retrieve_chunk_subset(
            &[
                Selection::Slice { start: Some(1), stop: None, step: None },
                Selection::Slice { start: None, stop: Some(2), step: None },
            ],
            &decoded,
            1,
        )
        .unwrap();
    assert_eq!(block.data(), &vec![4, 5, 8, 9]);
    assert_eq!(block.shape(), &vec![2, 2]);
    let all = a.retrieve_chunk_subset(&[], &decoded, 1).unwrap();
    assert_eq!(all.data(), &decoded);
    assert_eq!(all.shape(), &vec![3, 4]);
}

#[test]
fn selection_failures_are_reported() {
    let a = array();
    let decoded: Vec<u8> = (0..12).collect();
    assert_eq!(
        a.retrieve_chunk_subset(&[Selection::Index(3)], &decoded, 1).unwrap_err(),
        PipelineError::OutOfBounds
    );
    assert_eq!(
        a.retrieve_chunk_subset(&[], &decoded, 2).unwrap_err(),
        PipelineError::NonContiguousBuffer
    );
    let stepped = Selection::Slice { start: None, stop: None, step: Some(2) };
    assert_eq!(
        a.retrieve_chunk_subset(&[stepped], &decoded, 1).unwrap_err(),
        PipelineError::UnsupportedSelection
    );
}
