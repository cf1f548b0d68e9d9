use chunk_pipeline::{
    ChunkRepresentation, ChunksItem, ChunksItemRaw, CodecPipelineImpl, CodecPipelineStore,
    FilesystemRoot, PipelineError, Selection, StoreAction,
};
use rayon::iter::{IntoParallelRefIterator, ParallelIterator};
use std::collections::HashMap;

const BYTES: &str = r#"[{"name":"bytes","configuration":{"endian":"little"}}]"#;
const BIG_ENDIAN: &str = r#"[{"name":"bytes","configuration":{"endian":"big"}}]"#;
const GZIP: &str =
    r#"[{"name":"bytes","configuration":{"endian":"little"}},{"name":"gzip","configuration":{"level":5}}]"#;

type Store = HashMap<String, Vec<u8>>;

fn pipeline(metadata: &str) -> CodecPipelineImpl {
    CodecPipelineImpl::new(metadata, Some(true), Some(false), Some(1)).unwrap()
}

fn slice(start: i64, stop: i64) -> Selection {
    Selection::Slice { start: Some(start), stop: Some(stop), step: None }
}

fn raw(
    path: &str,
    chunk_shape: &[u64],
    dtype: &str,
    fill: &[u8],
    selection: Vec<Selection>,
    chunk_selection: Vec<Selection>,
) -> ChunksItemRaw {
    (
        path.to_string(),
        chunk_shape.to_vec(),
        dtype.to_string(),
        fill.to_vec(),
        selection,
        chunk_selection,
    )
}

fn with_stored(items: Vec<ChunksItem>, store: &Store) -> Vec<(ChunksItem, Option<Vec<u8>>)> {
    items
        .into_iter()
        .map(|item| {
            let held = store.get(&item.key).cloned();
            (item, held)
        })
        .collect()
}

fn store_all(
    pipeline: &mut CodecPipelineImpl,
    store: &mut Store,
    raws: Vec<ChunksItemRaw>,
    input: &[u8],
    shape: &[u64],
) -> Result<(), PipelineError> {
    let items = pipeline.collect_chunk_descriptions(raws, shape)?;
    let work = with_stored(items, store);
    let actions = pipeline.store_chunks(&work, input, shape)?;
    for ((item, _), action) in work.into_iter().zip(actions) {
        match action {
            StoreAction::Erase => {
                store.remove(&item.key);
            }
            StoreAction::Write(bytes) => {
                store.insert(item.key, bytes);
            }
        }
    }
    Ok(())
}

fn retrieve_all(
    pipeline: &mut CodecPipelineImpl,
    store: &Store,
    raws: Vec<ChunksItemRaw>,
    output: &mut Vec<u8>,
    shape: &[u64],
) -> Result<(), PipelineError> {
    let items = pipeline.collect_chunk_descriptions(raws, shape)?;
    let work = with_stored(items, store);
    pipeline.retrieve_chunks(&work, output, shape)
}

#[test]
fn new_takes_the_options_given() {
    let p = CodecPipelineImpl::new(BYTES, Some(false), Some(true), Some(3)).unwrap();
    assert!(!p.validate_checksums());
    assert!(p.store_empty_chunks());
    assert_eq!(p.concurrent_target(), 3);
    assert_eq!(p.store(), None);
    let q = CodecPipelineImpl::new(BYTES, None, None, None);
    assert!(q.is_ok());
}

#[test]
fn new_takes_every_form_of_an_entry() {
    for text in [
        r#"["bytes"]"#,
        r#"[{"name":"bytes"}]"#,
        r#"[{"name":"bytes","configuration":{}}]"#,
        r#"[{"name":"bytes","configuration":{"endian":"big"}}, "crc32c"]"#,
        r#" [ {"configuration":{"endian":"little"},"name":"bytes"} , {"name":"gzip","configuration":{"level":0}} ] "#,
    ] {
        assert!(CodecPipelineImpl::new(text, None, None, None).is_ok(), "{text}");
    }
}

#[test]
fn new_refuses_malformed_metadata() {
    let sharded = r#"[{"name":"sharding_indexed","configuration":{"chunk_shape":[2],"codecs":[{"name":"bytes","configuration":{"endian":"little"}}],"index_codecs":[{"name":"bytes","configuration":{"endian":"little"}}]}}]"#;
    let transposed = r#"[{"name":"transpose","configuration":{"order":[1,0]}},{"name":"bytes","configuration":{"endian":"little"}}]"#;
    let variable = r#"[{"name":"vlen_v2"}]"#;
    for text in [
        "",
        "not json",
        "{}",
        "[]",
        r#"[{"name":"no_such_codec"}]"#,
        r#"[{"name":"gzip"}]"#,
        r#"[{"name":"gzip","configuration":{"level":5}}]"#,
        r#"[{"name":"bytes","configuration":{"endian":"middle"}}]"#,
        r#"[{"name":"bytes","configuration":{"endian":"big","other":1}}]"#,
        r#"[{"name":"bytes","configuration":{"order":"big"}}]"#,
        r#"[{"name":"bytes","extra":1}]"#,
        r#"[{"name":"bytes"},{"name":"gzip","configuration":{"level":10}}]"#,
        r#"[{"name":"bytes"},{"name":"gzip","configuration":{"level":-1}}]"#,
        r#"[{"name":"bytes"},{"name":"gzip","configuration":{"level":"5"}}]"#,
        r#"[{"name":"bytes"},{"name":"gzip","configuration":{}}]"#,
        r#"[{"name":"bytes"},{"name":"crc32c","configuration":{"level":1}}]"#,
        r#"[{"name":"bytes"},{"name":"bytes"}]"#,
        r#"[{"name":"bytes"},{"name":"zstd","configuration":{"level":1}}]"#,
        sharded,
        transposed,
        variable,
    ] {
        assert!(
            matches!(
                CodecPipelineImpl::new(text, None, None, None),
                Err(PipelineError::InvalidCodecMetadata)
            ),
            "{text}"
        );
    }
}

#[test]
fn representation_names_what_is_wrong() {
    let new = ChunkRepresentation::new;
    assert_eq!(new(vec![2, 3], "nothing", vec![0]).unwrap_err(), PipelineError::UnsupportedDataType);
    assert_eq!(new(vec![2, 3], "string", vec![0]).unwrap_err(), PipelineError::UnsupportedDataType);
    assert_eq!(new(vec![2, 0], "nothing", vec![0]).unwrap_err(), PipelineError::UnsupportedDataType);
    assert_eq!(new(vec![2, 0], "uint8", vec![0]).unwrap_err(), PipelineError::InvalidChunkShape);
    assert_eq!(new(vec![2, 0], "uint8", vec![0, 0]).unwrap_err(), PipelineError::InvalidChunkShape);
    assert_eq!(new(vec![2, 3], "uint8", vec![0, 0]).unwrap_err(), PipelineError::InvalidFillValue);
    assert_eq!(new(vec![2, 3], "int32", vec![0]).unwrap_err(), PipelineError::InvalidFillValue);
    assert_eq!(
        new(vec![u64::MAX, 2], "uint8", vec![0]).unwrap_err(),
        PipelineError::InvalidChunkShape
    );
    assert_eq!(
        new(vec![u64::MAX], "uint16", vec![0, 0]).unwrap_err(),
        PipelineError::InvalidChunkShape
    );
}

#[test]
fn representation_keeps_what_it_was_given() {
    let chunk = ChunkRepresentation::new(vec![2, 3], "int32", vec![1, 2, 3, 4]).unwrap();
    assert_eq!(chunk.shape(), &vec![2, 3]);
    assert_eq!(chunk.data_type(), "int32");
    assert_eq!(chunk.fill_value(), &vec![1, 2, 3, 4]);
    assert_eq!(chunk.element_size(), 4);
    assert_eq!(chunk.num_elements(), 6);
    let copy = chunk.clone();
    assert_eq!(copy.shape(), chunk.shape());
    assert_eq!(copy.data_type(), chunk.data_type());
    assert_eq!(copy.fill_value(), chunk.fill_value());
    let same = CodecPipelineImpl::get_chunk_representation(vec![2, 3], "int32", vec![1, 2, 3, 4])
        .unwrap();
    assert_eq!(same.shape(), chunk.shape());
}

#[test]
fn data_types_have_their_widths() {
    let widths = [
        ("bool", 1),
        ("int8", 1),
        ("uint8", 1),
        ("int16", 2),
        ("uint16", 2),
        ("float16", 2),
        ("bfloat16", 2),
        ("int32", 4),
        ("uint32", 4),
        ("float32", 4),
        ("int64", 8),
        ("uint64", 8),
        ("float64", 8),
        ("complex64", 8),
        ("complex128", 16),
        ("r24", 3),
    ];
    for (name, width) in widths {
        let chunk = ChunkRepresentation::new(vec![1], name, vec![0; width]).unwrap();
        assert_eq!(chunk.element_size(), width, "{name}");
        assert_eq!(
            ChunkRepresentation::new(vec![1], name, vec![0; width + 1]).unwrap_err(),
            PipelineError::InvalidFillValue,
            "{name}"
        );
    }
}

#[test]
fn selections_become_a_subset() {
    let subset = CodecPipelineImpl::selection_to_array_subset(
        &[slice(1, 3), Selection::Index(-1)],
        &[4, 5],
    )
    .unwrap();
    assert_eq!(subset.start(), &vec![1, 4]);
    assert_eq!(subset.shape(), &vec![2, 1]);
}

#[test]
fn axes_without_a_selection_are_selected_whole() {
    let sub = CodecPipelineImpl::selection_to_array_subset;
    let one = sub(&[slice(1, 2)], &[4, 6]).unwrap();
    assert_eq!(one.dimensionality(), 2);
    assert_eq!(one.start(), &vec![1, 0]);
    assert_eq!(one.shape(), &vec![1, 6]);
    let none = sub(&[], &[4, 6]).unwrap();
    assert_eq!(none.start(), &vec![0, 0]);
    assert_eq!(none.shape(), &vec![4, 6]);
    let more = sub(&[slice(0, 2), slice(0, 1)], &[4]).unwrap();
    assert_eq!(more.start(), &vec![0]);
    assert_eq!(more.shape(), &vec![2]);
    assert_eq!(sub(&[slice(0, 2)], &[]).unwrap().dimensionality(), 0);
}

#[test]
fn first_failing_selection_decides() {
    let sub = CodecPipelineImpl::selection_to_array_subset;
    let stepped = Selection::Slice { start: None, stop: None, step: Some(3) };
    assert_eq!(
        sub(&[Selection::Index(9), stepped], &[4, 5]).unwrap_err(),
        PipelineError::OutOfBounds
    );
    assert_eq!(
        sub(&[stepped, Selection::Index(9)], &[4, 5]).unwrap_err(),
        PipelineError::UnsupportedSelection
    );
    assert!(sub(&[Selection::Index(9)], &[]).is_ok());
}

#[test]
fn chains_of_known_codecs_are_taken() {
    let checked = r#"[{"name":"bytes","configuration":{"endian":"big"}},{"name":"gzip","configuration":{"level":1}},{"name":"crc32c"}]"#;
    let p = pipeline(checked);
    let chunk = ChunkRepresentation::new(vec![3], "uint16", vec![0, 0]).unwrap();
    let decoded = vec![1, 2, 3, 4, 5, 6];
    let encoded = p.encode(&chunk, &decoded).unwrap();
    assert_eq!(p.decode(&chunk, &encoded), Some(decoded));
    let mut broken = encoded.clone();
    let last = broken.len() - 1;
    broken[last] ^= 1;
    assert_eq!(p.decode(&chunk, &broken), None);
    let many: Vec<String> = std::iter::once(r#"{"name":"bytes"}"#.to_string())
        .chain((0..32).map(|_| r#"{"name":"crc32c"}"#.to_string()))
        .collect();
    let long = format!("[{}]", many.join(","));
    assert!(matches!(
        CodecPipelineImpl::new(&long, None, None, None),
        Err(PipelineError::InvalidCodecMetadata)
    ));
    let fits = format!("[{}]", many[..32].join(","));
    assert!(CodecPipelineImpl::new(&fits, None, None, None).is_ok());
}

#[test]
fn description_with_one_selection_covers_every_axis() {
    let mut p = pipeline(BYTES);
    let item = p
        .describe(
            &raw("file://c", &[2, 3], "uint8", &[0], vec![slice(0, 1)], vec![Selection::Index(1)]),
            &[1, 3],
        )
        .unwrap();
    assert_eq!(item.chunk_subset.start(), &vec![1, 0]);
    assert_eq!(item.chunk_subset.shape(), &vec![1, 3]);
    assert_eq!(item.subset.start(), &vec![0, 0]);
    assert_eq!(item.subset.shape(), &vec![1, 3]);
    let mut output = vec![0u8; 3];
    p.retrieve_chunk(&item, Some(&vec![1, 2, 3, 4, 5, 6]), &mut output, &[1, 3]).unwrap();
    assert_eq!(output, vec![4, 5, 6]);
}

#[test]
fn description_becomes_a_unit_of_work() {
    let mut p = pipeline(BYTES);
    let item = p
        .describe(
            &raw("file:///tmp/a/c/0/1", &[4, 4], "uint16", &[0, 0], vec![slice(0, 2), slice(2, 4)], vec![
                slice(2, 4),
                slice(0, 2),
            ]),
            &[2, 4],
        )
        .unwrap();
    assert_eq!(item.store, CodecPipelineStore::Filesystem(FilesystemRoot::Absolute));
    assert_eq!(item.key, "tmp/a/c/0/1");
    assert_eq!(item.chunk_subset.start(), &vec![2, 0]);
    assert_eq!(item.chunk_subset.shape(), &vec![2, 2]);
    assert_eq!(item.subset.start(), &vec![0, 2]);
    assert_eq!(item.subset.shape(), &vec![2, 2]);
    assert_eq!(item.representation.shape(), &vec![4, 4]);
    assert_eq!(p.store(), Some(CodecPipelineStore::Filesystem(FilesystemRoot::Absolute)));
}

#[test]
fn get_store_and_path_keeps_the_first_store() {
    let mut p = pipeline(BYTES);
    let relative = CodecPipelineStore::Filesystem(FilesystemRoot::WorkingDirectory);
    assert_eq!(p.get_store_and_path("file://a/b"), Ok((relative, "a/b".to_string())));
    assert_eq!(p.get_store_and_path("file:///c"), Ok((relative, "c".to_string())));
    assert_eq!(p.get_store_and_path("memory://c"), Err(PipelineError::UnsupportedBackend));
    assert_eq!(p.store(), Some(relative));
}

#[test]
fn description_failures_in_order() {
    let mut p = pipeline(BYTES);
    let whole = || vec![slice(0, 4)];
    let stepped = || vec![Selection::Slice { start: None, stop: None, step: Some(2) }];
    let cases: Vec<(ChunksItemRaw, PipelineError)> = vec![
        (raw("http://x/c", &[0], "bad", &[], stepped(), stepped()), PipelineError::UnsupportedBackend),
        (raw("file://x//c", &[0], "bad", &[], stepped(), stepped()), PipelineError::InvalidStoreKey),
        (raw("file://", &[4], "uint8", &[0], whole(), whole()), PipelineError::InvalidStoreKey),
        (raw("file://x/", &[4], "uint8", &[0], whole(), whole()), PipelineError::InvalidStoreKey),
        (raw("file:////x", &[4], "uint8", &[0], whole(), whole()), PipelineError::InvalidStoreKey),
        (raw("file://x", &[4], "bad", &[], whole(), stepped()), PipelineError::UnsupportedSelection),
        (
            raw("file://x", &[4], "bad", &[], vec![Selection::Index(4)], whole()),
            PipelineError::OutOfBounds,
        ),
        (raw("file://x", &[0], "bad", &[], whole(), whole()), PipelineError::UnsupportedDataType),
        (raw("file://x", &[0], "uint8", &[0], whole(), whole()), PipelineError::InvalidChunkShape),
        (raw("file://x", &[4], "uint8", &[], whole(), whole()), PipelineError::InvalidFillValue),
        (
            raw("file://x", &[4], "uint8", &[0], whole(), vec![slice(0, 3)]),
            PipelineError::UnsupportedSelection,
        ),
        (
            raw("file://x", &[4], "uint8", &[0], vec![slice(0, 2)], vec![]),
            PipelineError::UnsupportedSelection,
        ),
        (
            raw("file://x", &[4, 4], "uint8", &[0], whole(), whole()),
            PipelineError::UnsupportedSelection,
        ),
    ];
    for (description, expected) in cases {
        assert_eq!(p.describe(&description, &[4]).unwrap_err(), expected, "{description:?}");
    }
}

#[test]
fn malformed_dtype_fails_the_whole_batch() {
    let mut p = pipeline(BYTES);
    let mut store = Store::new();
    let good = raw("file://a/c/0", &[5], "uint8", &[0], vec![slice(0, 5)], vec![slice(0, 5)]);
    let bad = raw("file://a/c/1", &[5], "uint8x", &[0], vec![slice(5, 10)], vec![slice(0, 5)]);
    let input: Vec<u8> = (1..=10).collect();
    assert_eq!(
        store_all(&mut p, &mut store, vec![good.clone(), bad.clone()], &input, &[10]),
        Err(PipelineError::UnsupportedDataType)
    );
    assert!(store.is_empty());
    let mut output = vec![9u8; 10];
    assert_eq!(
        retrieve_all(&mut p, &store, vec![good, bad], &mut output, &[10]),
        Err(PipelineError::UnsupportedDataType)
    );
    assert_eq!(output, vec![9u8; 10]);
}

#[test]
fn chunk_never_written_reads_as_fill() {
    let mut p = pipeline(BYTES);
    let store = Store::new();
    let mut output = vec![0u8; 12];
    let item = raw("file://a/c/0", &[4, 4], "uint16", &[7, 9], vec![slice(0, 2), slice(0, 3)], vec![
        slice(1, 3),
        slice(1, 4),
    ]);
    retrieve_all(&mut p, &store, vec![item], &mut output, &[2, 3]).unwrap();
    assert_eq!(output, vec![7, 9, 7, 9, 7, 9, 7, 9, 7, 9, 7, 9]);
}

#[test]
fn fill_is_written_into_the_region_only() {
    let mut p = pipeline(BYTES);
    let store = Store::new();
    let mut output = vec![1u8; 6];
    let item = raw("file://a/c/0", &[4], "uint8", &[0], vec![slice(2, 5)], vec![slice(0, 3)]);
    retrieve_all(&mut p, &store, vec![item], &mut output, &[6]).unwrap();
    assert_eq!(output, vec![1, 1, 0, 0, 0, 1]);
}

#[test]
fn store_then_retrieve_whole_chunk() {
    let mut p = pipeline(GZIP);
    let mut store = Store::new();
    let input: Vec<u8> = (0..32).collect();
    let whole = || vec![slice(0, 4), slice(0, 4)];
    let item = || raw("file://a/c/0/0", &[4, 4], "uint16", &[0, 0], whole(), whole());
    store_all(&mut p, &mut store, vec![item()], &input, &[4, 4]).unwrap();
    assert!(store.contains_key("a/c/0/0"));
    assert_ne!(store["a/c/0/0"], input);
    let mut output = vec![0u8; 32];
    retrieve_all(&mut p, &store, vec![item()], &mut output, &[4, 4]).unwrap();
    assert_eq!(output, input);
}

#[test]
fn store_then_retrieve_part_of_a_chunk() {
    let mut p = pipeline(GZIP);
    let mut store = Store::new();
    let input: Vec<u8> = (1..=6).collect();
    let item = || {
        raw("file://a/c/0/0", &[4, 4], "uint8", &[0], vec![slice(0, 2), slice(0, 3)], vec![
            slice(1, 3),
            slice(1, 4),
        ])
    };
    store_all(&mut p, &mut store, vec![item()], &input, &[2, 3]).unwrap();
    let mut output = vec![0u8; 6];
    retrieve_all(&mut p, &store, vec![item()], &mut output, &[2, 3]).unwrap();
    assert_eq!(output, input);
    let whole = || vec![slice(0, 4), slice(0, 4)];
    let all = raw("file://a/c/0/0", &[4, 4], "uint8", &[0], whole(), whole());
    let mut chunk = vec![9u8; 16];
    retrieve_all(&mut p, &store, vec![all], &mut chunk, &[4, 4]).unwrap();
    assert_eq!(chunk, vec![0, 0, 0, 0, 0, 1, 2, 3, 0, 4, 5, 6, 0, 0, 0, 0]);
}

#[test]
fn second_partial_write_keeps_the_first() {
    let mut p = pipeline(BYTES);
    let mut store = Store::new();
    let first = raw("file://c", &[6], "uint8", &[0], vec![slice(0, 2)], vec![slice(0, 2)]);
    let second = raw("file://c", &[6], "uint8", &[0], vec![slice(0, 2)], vec![slice(3, 5)]);
    store_all(&mut p, &mut store, vec![first], &[1, 2], &[2]).unwrap();
    store_all(&mut p, &mut store, vec![second], &[3, 4], &[2]).unwrap();
    assert_eq!(store["c"], vec![1, 2, 0, 3, 4, 0]);
}

#[test]
fn storing_fill_over_whole_chunk_erases_the_key() {
    let mut p = pipeline(BYTES);
    let mut store = Store::new();
    let item = || raw("file://a/c/0", &[4], "uint16", &[5, 6], vec![slice(0, 4)], vec![slice(0, 4)]);
    store_all(&mut p, &mut store, vec![item()], &[1, 2, 3, 4, 5, 6, 7, 8], &[4]).unwrap();
    assert!(store.contains_key("a/c/0"));
    store_all(&mut p, &mut store, vec![item()], &[5, 6, 5, 6, 5, 6, 5, 6], &[4]).unwrap();
    assert!(!store.contains_key("a/c/0"));
    let mut output = vec![0u8; 8];
    retrieve_all(&mut p, &store, vec![item()], &mut output, &[4]).unwrap();
    assert_eq!(output, vec![5, 6, 5, 6, 5, 6, 5, 6]);
    store_all(&mut p, &mut store, vec![item()], &[5, 6, 5, 6, 5, 6, 5, 6], &[4]).unwrap();
    assert!(store.is_empty());
}

#[test]
fn partial_write_that_restores_the_fill_erases_the_key() {
    let mut p = pipeline(BYTES);
    let mut store = Store::new();
    let part = || raw("file://c", &[4], "uint8", &[0], vec![slice(0, 2)], vec![slice(1, 3)]);
    store_all(&mut p, &mut store, vec![part()], &[8, 9], &[2]).unwrap();
    assert_eq!(store["c"], vec![0, 8, 9, 0]);
    store_all(&mut p, &mut store, vec![part()], &[0, 0], &[2]).unwrap();
    assert!(!store.contains_key("c"));
}

#[test]
fn scalar_is_written_to_every_element() {
    let mut p = pipeline(BYTES);
    let mut store = Store::new();
    let whole = || raw("file://c", &[2, 2], "uint16", &[0, 0], vec![], vec![slice(0, 2), slice(0, 2)]);
    store_all(&mut p, &mut store, vec![whole()], &[3, 4], &[]).unwrap();
    assert_eq!(store["c"], vec![3, 4, 3, 4, 3, 4, 3, 4]);
    let row = raw("file://c", &[2, 2], "uint16", &[0, 0], vec![], vec![slice(1, 2), slice(0, 2)]);
    store_all(&mut p, &mut store, vec![row], &[0, 0], &[]).unwrap();
    assert_eq!(store["c"], vec![3, 4, 3, 4, 0, 0, 0, 0]);
    store_all(&mut p, &mut store, vec![whole()], &[0, 0], &[]).unwrap();
    assert!(!store.contains_key("c"));
}

#[test]
fn scalar_is_retrieved_from_a_single_element() {
    let mut p = pipeline(BYTES);
    let mut store = Store::new();
    store.insert("c".to_string(), vec![1, 2, 3, 4]);
    let one = raw("file://c", &[4], "uint8", &[0], vec![], vec![Selection::Index(2)]);
    let mut output = vec![0u8];
    retrieve_all(&mut p, &store, vec![one], &mut output, &[]).unwrap();
    assert_eq!(output, vec![3]);
    let many = raw("file://c", &[4], "uint8", &[0], vec![], vec![slice(0, 2)]);
    assert_eq!(
        retrieve_all(&mut p, &store, vec![many], &mut output, &[]),
        Err(PipelineError::UnsupportedSelection)
    );
    assert_eq!(output, vec![3]);
}

#[test]
fn two_chunks_of_ten_elements() {
    let mut p = pipeline(BYTES);
    let mut store = Store::new();
    let first = raw("file://a/c/0", &[5], "uint8", &[255], vec![slice(0, 5)], vec![slice(0, 5)]);
    store_all(&mut p, &mut store, vec![first], &[0, 1, 2, 3, 4], &[5]).unwrap();
    let left = raw("file://a/c/0", &[5], "uint8", &[255], vec![slice(0, 3)], vec![slice(2, 5)]);
    let right = raw("file://a/c/1", &[5], "uint8", &[255], vec![slice(3, 6)], vec![slice(0, 3)]);
    let mut output = vec![0u8; 6];
    retrieve_all(&mut p, &store, vec![left, right], &mut output, &[6]).unwrap();
    assert_eq!(output, vec![2, 3, 4, 255, 255, 255]);
    assert_eq!(store.len(), 1);
}

#[test]
fn big_endian_bytes_are_swapped() {
    let p = pipeline(BIG_ENDIAN);
    let chunk = ChunkRepresentation::new(vec![2], "uint16", vec![0, 0]).unwrap();
    let native: Vec<u8> = [0x0102u16, 0x0304u16].iter().flat_map(|v| v.to_ne_bytes()).collect();
    assert_eq!(p.encode(&chunk, &native), Some(vec![1, 2, 3, 4]));
    assert_eq!(p.decode(&chunk, &vec![1, 2, 3, 4]), Some(native.clone()));
    assert_eq!(p.store_chunk_bytes(&chunk, &native), Ok(StoreAction::Write(vec![1, 2, 3, 4])));
    assert_eq!(p.retrieve_chunk_bytes(&chunk, Some(&vec![1, 2, 3, 4])), Ok(native));
}

#[test]
fn gzip_encodes_to_other_bytes_and_back() {
    let p = pipeline(GZIP);
    let chunk = ChunkRepresentation::new(vec![64], "uint8", vec![0]).unwrap();
    let decoded: Vec<u8> = (0..64).map(|i| (i % 3) as u8).collect();
    let encoded = p.encode(&chunk, &decoded).unwrap();
    assert_ne!(encoded, decoded);
    assert_eq!(p.decode(&chunk, &encoded), Some(decoded.clone()));
    assert_eq!(p.decode(&chunk, &decoded), None);
    assert_eq!(p.encode(&chunk, &decoded), Some(encoded));
}

#[test]
fn undecodable_bytes_are_a_decode_failure() {
    let p = pipeline(GZIP);
    let chunk = ChunkRepresentation::new(vec![4], "uint8", vec![0]).unwrap();
    assert_eq!(
        p.retrieve_chunk_bytes(&chunk, Some(&vec![1, 2, 3])),
        Err(PipelineError::DecodeFailure)
    );
    let plain = pipeline(BYTES);
    assert_eq!(
        plain.retrieve_chunk_bytes(&chunk, Some(&vec![1, 2, 3])),
        Err(PipelineError::DecodeFailure)
    );
    assert_eq!(plain.retrieve_chunk_bytes(&chunk, Some(&vec![1, 2, 3, 4])), Ok(vec![1, 2, 3, 4]));
    assert_eq!(plain.retrieve_chunk_bytes(&chunk, None), Ok(vec![0, 0, 0, 0]));
}

#[test]
fn unencodable_bytes_are_a_write_failure() {
    let p = pipeline(BYTES);
    let chunk = ChunkRepresentation::new(vec![4], "uint8", vec![0]).unwrap();
    assert_eq!(p.store_chunk_bytes(&chunk, &vec![1, 2, 3]), Err(PipelineError::StoreWriteFailure));
    assert_eq!(p.store_chunk_bytes(&chunk, &vec![0, 0, 0, 0]), Ok(StoreAction::Erase));
    assert_eq!(
        p.store_chunk_bytes(&chunk, &vec![0, 0, 0, 1]),
        Ok(StoreAction::Write(vec![0, 0, 0, 1]))
    );
}

#[test]
fn failed_partial_write_reports_the_decode_failure() {
    let mut p = pipeline(GZIP);
    let mut store = Store::new();
    store.insert("c".to_string(), vec![1, 2, 3]);
    let part = raw("file://c", &[4], "uint8", &[0], vec![slice(0, 2)], vec![slice(1, 3)]);
    assert_eq!(
        store_all(&mut p, &mut store, vec![part], &[8, 9], &[2]),
        Err(PipelineError::DecodeFailure)
    );
    assert_eq!(store["c"], vec![1, 2, 3]);
    let whole = raw("file://c", &[4], "uint8", &[0], vec![slice(0, 4)], vec![slice(0, 4)]);
    store_all(&mut p, &mut store, vec![whole], &[8, 9, 8, 9], &[4]).unwrap();
    assert_ne!(store["c"], vec![1, 2, 3]);
}

#[test]
fn buffer_of_another_size_is_refused() {
    let mut p = pipeline(BYTES);
    let mut store = Store::new();
    let item = || raw("file://c", &[4], "uint16", &[0, 0], vec![slice(0, 4)], vec![slice(0, 4)]);
    assert_eq!(
        store_all(&mut p, &mut store, vec![item()], &[1, 2, 3, 4], &[4]),
        Err(PipelineError::NonContiguousBuffer)
    );
    let mut output = vec![0u8; 9];
    assert_eq!(
        retrieve_all(&mut p, &store, vec![item()], &mut output, &[4]),
        Err(PipelineError::NonContiguousBuffer)
    );
    assert!(store.is_empty());
}

#[test]
fn item_for_another_buffer_is_out_of_bounds() {
    let mut p = pipeline(BYTES);
    let item = p
        .describe(
            &raw("file://c", &[8], "uint8", &[0], vec![slice(4, 8)], vec![slice(0, 4)]),
            &[8],
        )
        .unwrap();
    let mut output = vec![0u8; 6];
    assert_eq!(p.retrieve_chunk(&item, None, &mut output, &[6]), Err(PipelineError::OutOfBounds));
    assert_eq!(p.store_chunk(&item, None, &output, &[6]), Err(PipelineError::OutOfBounds));
    assert_eq!(p.store_chunk(&item, None, &[0; 8], &[2, 4]), Err(PipelineError::OutOfBounds));
}

#[test]
fn first_failure_ends_the_retrieval() {
    let mut p = pipeline(GZIP);
    let mut store = Store::new();
    store.insert("b".to_string(), vec![1, 2, 3]);
    let item = |key: &str, at: i64| {
        raw(&format!("file://{key}"), &[2], "uint8", &[7], vec![slice(at, at + 2)], vec![slice(0, 2)])
    };
    let mut output = vec![0u8; 6];
    assert_eq!(
        retrieve_all(&mut p, &store, vec![item("a", 0), item("b", 2), item("c", 4)], &mut output, &[6]),
        Err(PipelineError::DecodeFailure)
    );
    assert_eq!(output, vec![7, 7, 0, 0, 0, 0]);
}

#[test]
fn overlapping_regions_give_one_of_the_orders() {
    let mut p = pipeline(BYTES);
    let mut store = Store::new();
    store.insert("a".to_string(), vec![1, 1, 1]);
    store.insert("b".to_string(), vec![2, 2, 2]);
    let a = || raw("file://a", &[3], "uint8", &[0], vec![slice(0, 3)], vec![slice(0, 3)]);
    let b = || raw("file://b", &[3], "uint8", &[0], vec![slice(1, 4)], vec![slice(0, 3)]);
    let mut first = vec![0u8; 4];
    retrieve_all(&mut p, &store, vec![a(), b()], &mut first, &[4]).unwrap();
    assert_eq!(first, vec![1, 2, 2, 2]);
    let mut second = vec![0u8; 4];
    retrieve_all(&mut p, &store, vec![b(), a()], &mut second, &[4]).unwrap();
    assert_eq!(second, vec![1, 1, 1, 2]);
    assert_ne!(first, second);
}

#[test]
fn order_and_concurrency_do_not_change_the_outcome() {
    let mut p = pipeline(GZIP);
    let n: i64 = 8;
    let descriptions = |reverse: bool| {
        let mut raws: Vec<ChunksItemRaw> = (0..n)
            .map(|i| {
                raw(&format!("file://a/c/{i}"), &[4], "uint16", &[0, 0], vec![slice(4 * i, 4 * i + 4)], vec![
                    slice(0, 4),
                ])
            })
            .collect();
        if reverse {
            raws.reverse();
        }
        raws
    };
    let input: Vec<u8> = (0..64).collect();
    let shape = [32u64];
    let mut one = Store::new();
    store_all(&mut p, &mut one, descriptions(false), &input, &shape).unwrap();
    let mut other = Store::new();
    store_all(&mut p, &mut other, descriptions(true), &input, &shape).unwrap();
    assert_eq!(one, other);
    assert_eq!(one.len(), 8);

    let items = p.collect_chunk_descriptions(descriptions(false), &shape).unwrap();
    let work = with_stored(items, &Store::new());
    let concurrent: Vec<(String, StoreAction)> = work
        .par_iter()
        .map(|(item, held)| {
            (item.key.clone(), p.store_chunk(item, held.as_ref(), &input, &shape).unwrap())
        })
        .collect();
    for (key, action) in concurrent {
        assert_eq!(action, StoreAction::Write(one[&key].clone()));
    }

    let mut forward = vec![0u8; 64];
    retrieve_all(&mut p, &one, descriptions(false), &mut forward, &shape).unwrap();
    let mut backward = vec![0u8; 64];
    retrieve_all(&mut p, &one, descriptions(true), &mut backward, &shape).unwrap();
    assert_eq!(forward, input);
    assert_eq!(backward, input);

    let items = p.collect_chunk_descriptions(descriptions(false), &shape).unwrap();
    let work = with_stored(items, &one);
    let regions: Vec<Vec<u8>> = work
        .par_iter()
        .map(|(item, held)| p.retrieve_chunk_subset_bytes(item, held.as_ref()).unwrap())
        .collect();
    let mut scattered = vec![0u8; 64];
    for ((item, _), region) in work.iter().zip(&regions) {
        chunk_pipeline::buffer::update(&mut scattered, &shape, &item.subset, 2, region);
    }
    assert_eq!(scattered, input);
}

#[test]
fn reads_before_write_only_for_part_of_a_chunk() {
    let mut p = pipeline(BYTES);
    let whole = p
        .describe(&raw("file://c", &[4], "uint8", &[0], vec![slice(0, 4)], vec![slice(0, 4)]), &[4])
        .unwrap();
    let part = p
        .describe(&raw("file://c", &[4], "uint8", &[0], vec![slice(0, 2)], vec![slice(0, 2)]), &[4])
        .unwrap();
    assert!(!CodecPipelineImpl::reads_before_write(&whole));
    assert!(CodecPipelineImpl::reads_before_write(&part));
    assert_eq!(
        p.store_chunk(&whole, Some(&vec![9, 9]), &[1, 2, 3, 4], &[4]),
        Ok(StoreAction::Write(vec![1, 2, 3, 4]))
    );
}

#[test]
fn subset_bytes_are_merged_into_the_chunk() {
    let p = pipeline(BYTES);
    let chunk = ChunkRepresentation::new(vec![2, 3], "uint8", vec![0]).unwrap();
    let column = chunk_pipeline::ArraySubset::new_with_ranges(&[0..2, 1..2]);
    assert_eq!(
        p.store_chunk_subset_bytes(&chunk, Some(&vec![1, 2, 3, 4, 5, 6]), &vec![8, 9], &column),
        Ok(StoreAction::Write(vec![1, 8, 3, 4, 9, 6]))
    );
    assert_eq!(
        p.store_chunk_subset_bytes(&chunk, None, &vec![8, 9], &column),
        Ok(StoreAction::Write(vec![0, 8, 0, 0, 9, 0]))
    );
    assert_eq!(
        p.store_chunk_subset_bytes(&chunk, None, &vec![8, 9, 7], &column),
        Err(PipelineError::UnsupportedSelection)
    );
    let outside = chunk_pipeline::ArraySubset::new_with_ranges(&[0..2, 3..4]);
    assert_eq!(
        p.store_chunk_subset_bytes(&chunk, None, &vec![8, 9], &outside),
        Err(PipelineError::OutOfBounds)
    );
}
