use chunk_pipeline::error::PipelineError;
use chunk_pipeline::selection::{normalize_index, normalize_slice, Selection};

#[test]
fn negative_index_counts_from_the_end() {
    assert_eq!(normalize_index(10, -1), Ok(9..10));
    assert_eq!(normalize_index(10, -10), Ok(0..1));
    assert_eq!(normalize_index(10, 3), Ok(3..4));
}

#[test]
fn index_before_the_start_is_out_of_bounds() {
    assert_eq!(normalize_index(10, -11), Err(PipelineError::OutOfBounds));
    assert_eq!(normalize_index(0, -1), Err(PipelineError::OutOfBounds));
    assert_eq!(normalize_index(10, i64::MIN), Err(PipelineError::OutOfBounds));
}

#[test]
fn index_at_or_beyond_the_end_is_out_of_bounds() {
    assert_eq!(normalize_index(10, 10), Err(PipelineError::OutOfBounds));
    assert_eq!(normalize_index(0, 0), Err(PipelineError::OutOfBounds));
}

#[test]
fn slice_defaults_cover_the_axis() {
    assert_eq!(normalize_slice(7, None, None, None), Ok(0..7));
    assert_eq!(normalize_slice(7, Some(2), None, Some(1)), Ok(2..7));
    assert_eq!(normalize_slice(7, None, Some(-2), None), Ok(0..5));
}

#[test]
fn slice_with_other_step_is_unsupported() {
    assert_eq!(normalize_slice(7, None, None, Some(2)), Err(PipelineError::UnsupportedSelection));
    assert_eq!(normalize_slice(7, Some(-9), None, Some(-1)), Err(PipelineError::UnsupportedSelection));
}

#[test]
fn slice_bounds_are_held_to_the_axis() {
    assert_eq!(normalize_slice(7, Some(3), Some(100), None), Ok(3..7));
    assert_eq!(normalize_slice(7, Some(5), Some(2), None), Ok(5..5));
    assert_eq!(normalize_slice(7, Some(-8), None, None), Err(PipelineError::OutOfBounds));
}

#[test]
fn selection_normalizes_by_its_variant() {
    assert_eq!(Selection::Index(-3).normalize(5), Ok(2..3));
    let slice = Selection::Slice { start: Some(1), stop: Some(4), step: None };
    assert_eq!(slice.normalize(5), Ok(1..4));
}
