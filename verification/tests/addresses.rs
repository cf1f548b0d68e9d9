use chunk_pipeline::store::resolve;
use chunk_pipeline::{CodecPipelineStore, FilesystemRoot, PipelineError};

#[test]
fn absolute_path_roots_the_store_at_the_filesystem_root() {
    let mut cached = None;
    let found = resolve(&mut cached, "file:///data/array/c/0");
    let store = CodecPipelineStore::Filesystem(FilesystemRoot::Absolute);
    assert_eq!(found, Ok((store, "data/array/c/0".to_string())));
    assert_eq!(cached, Some(store));
}

#[test]
fn relative_path_roots_the_store_at_the_working_directory() {
    let mut cached = None;
    let found = resolve(&mut cached, "file://data/c/0");
    let store = CodecPipelineStore::Filesystem(FilesystemRoot::WorkingDirectory);
    assert_eq!(found, Ok((store, "data/c/0".to_string())));
    assert_eq!(cached, Some(store));
}

#[test]
fn later_addresses_go_to_the_store_in_use() {
    let mut cached = None;
    resolve(&mut cached, "file://first").unwrap();
    let found = resolve(&mut cached, "file:///second/c");
    let store = CodecPipelineStore::Filesystem(FilesystemRoot::WorkingDirectory);
    assert_eq!(found, Ok((store, "second/c".to_string())));
    assert_eq!(cached, Some(store));
}

#[test]
fn other_schemes_are_unsupported() {
    let mut cached = None;
    assert_eq!(resolve(&mut cached, "s3://bucket/key"), Err(PipelineError::UnsupportedBackend));
    assert_eq!(resolve(&mut cached, "file:/x"), Err(PipelineError::UnsupportedBackend));
    assert_eq!(resolve(&mut cached, ""), Err(PipelineError::UnsupportedBackend));
    assert_eq!(cached, None);
}

#[test]
fn path_may_be_empty_or_hold_other_characters() {
    let mut cached = None;
    let store = CodecPipelineStore::Filesystem(FilesystemRoot::WorkingDirectory);
    assert_eq!(resolve(&mut cached, "file://"), Ok((store, String::new())));
    assert_eq!(resolve(&mut cached, "file://données/π"), Ok((store, "données/π".to_string())));
}

#[test]
fn every_error_has_a_message() {
    assert_eq!(PipelineError::OutOfBounds.message(), "selection out of bounds");
    assert_eq!(PipelineError::BackendMismatch.message(), "the store type changed");
    assert_eq!(
        PipelineError::NonContiguousBuffer.message(),
        "array must be a C contiguous array"
    );
    let all = [
        PipelineError::OutOfBounds,
        PipelineError::UnsupportedSelection,
        PipelineError::InvalidChunkShape,
        PipelineError::UnsupportedDataType,
        PipelineError::InvalidFillValue,
        PipelineError::BackendMismatch,
        PipelineError::UnsupportedBackend,
        PipelineError::InvalidStoreKey,
        PipelineError::NonContiguousBuffer,
        PipelineError::InvalidCodecMetadata,
        PipelineError::DecodeFailure,
        PipelineError::StoreReadFailure,
        PipelineError::StoreWriteFailure,
    ];
    for (i, a) in all.iter().enumerate() {
        for b in all.iter().skip(i + 1) {
            assert_ne!(a.message(), b.message());
        }
    }
}
