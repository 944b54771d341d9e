//! The chunked array store: groups, arrays, and the chunk round trip.

use mupattern::store::{ChunkStore, StoreError};

fn attrs() -> Vec<(String, String)> {
    Vec::new()
}

#[test]
fn written_chunk_reads_back_identically() {
    let mut store = ChunkStore::new();
    let id = store
        .create_array(String::from("/a"), vec![4, 4], vec![2, 2], 0, attrs())
        .unwrap();
    let data: Vec<u16> = vec![1, 2, 3, 4];
    store.write_chunk(id, vec![1, 0], data.clone()).unwrap();
    let back = store.read_chunk(id, &vec![1, 0]).unwrap();
    assert_eq!(back, data);
}

#[test]
fn unwritten_chunk_reads_as_the_fill_value() {
    let mut store = ChunkStore::new();
    let id = store
        .create_array(String::from("/a"), vec![4, 4], vec![2, 2], 7, attrs())
        .unwrap();
    let back = store.read_chunk(id, &vec![0, 1]).unwrap();
    assert_eq!(back, vec![7, 7, 7, 7]);
}

#[test]
fn a_chunk_is_written_at_most_once() {
    let mut store = ChunkStore::new();
    let id = store
        .create_array(String::from("/a"), vec![2, 2], vec![2, 2], 0, attrs())
        .unwrap();
    store.write_chunk(id, vec![0, 0], vec![1, 2, 3, 4]).unwrap();
    let e = store.write_chunk(id, vec![0, 0], vec![5, 6, 7, 8]).unwrap_err();
    assert_eq!(e, StoreError::ChunkExists);
    assert_eq!(store.read_chunk(id, &vec![0, 0]).unwrap(), vec![1, 2, 3, 4]);
}

#[test]
fn rank_of_shape_and_chunk_shape_must_agree() {
    let mut store = ChunkStore::new();
    let e = store
        .create_array(String::from("/a"), vec![4, 4], vec![2], 0, attrs())
        .unwrap_err();
    assert_eq!(e, StoreError::RankMismatch);
}

#[test]
fn zero_chunk_extent_is_rejected() {
    let mut store = ChunkStore::new();
    let e = store
        .create_array(String::from("/a"), vec![4], vec![0], 0, attrs())
        .unwrap_err();
    assert_eq!(e, StoreError::InvalidChunkShape);
}

#[test]
fn a_path_names_at_most_one_array() {
    let mut store = ChunkStore::new();
    store
        .create_array(String::from("/a"), vec![2], vec![1], 0, attrs())
        .unwrap();
    let e = store
        .create_array(String::from("/a"), vec![4], vec![2], 0, attrs())
        .unwrap_err();
    assert_eq!(e, StoreError::PathTaken);
}

#[test]
fn open_array_resolves_by_path() {
    let mut store = ChunkStore::new();
    let a = store
        .create_array(String::from("/a"), vec![2], vec![1], 0, attrs())
        .unwrap();
    let b = store
        .create_array(String::from("/b"), vec![2], vec![1], 0, attrs())
        .unwrap();
    assert_eq!(store.open_array("/b").unwrap(), b);
    assert_eq!(store.open_array("/a").unwrap(), a);
    assert_eq!(store.open_array("/c").unwrap_err(), StoreError::PathNotFound);
}

#[test]
fn chunk_index_must_fit_the_grid() {
    let mut store = ChunkStore::new();
    let id = store
        .create_array(String::from("/a"), vec![4, 4], vec![2, 2], 0, attrs())
        .unwrap();
    let e = store.write_chunk(id, vec![2, 0], vec![1, 2, 3, 4]).unwrap_err();
    assert_eq!(e, StoreError::OutOfBounds);
    let e = store.write_chunk(id, vec![0], vec![1, 2, 3, 4]).unwrap_err();
    assert_eq!(e, StoreError::OutOfBounds);
}

#[test]
fn chunk_data_must_fill_one_chunk() {
    let mut store = ChunkStore::new();
    let id = store
        .create_array(String::from("/a"), vec![4, 4], vec![2, 2], 0, attrs())
        .unwrap();
    let e = store.write_chunk(id, vec![0, 0], vec![1, 2, 3]).unwrap_err();
    assert_eq!(e, StoreError::WrongChunkLength);
}

#[test]
fn groups_are_created_idempotently() {
    let mut store = ChunkStore::new();
    store.ensure_group(String::from("/"));
    store.ensure_group(String::from("/pos"));
    store.ensure_group(String::from("/pos"));
    assert_eq!(store.groups, vec![String::from("/"), String::from("/pos")]);
}
