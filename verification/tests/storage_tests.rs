use std::collections::BTreeMap;

use segment::scored::{peek_top_largest, score_order_key, ScoredPointOffset};
use segment::storage::{open_simple_vector_storage, Distance, SimpleVectorStorage, StorageError};

fn bits_of(v: &[f32]) -> Vec<u32> {
    v.iter().map(|x| x.to_bits()).collect()
}

fn floats_of(v: &[u32]) -> Vec<f32> {
    v.iter().map(|x| f32::from_bits(*x)).collect()
}

fn dot(a: &[f32], b: &[f32]) -> f32 {
    let mut acc = 0.0f32;
    for i in 0..a.len() {
        acc += a[i] * b[i];
    }
    acc
}

fn score_point(storage: &SimpleVectorStorage, query: &[f32], id: u32) -> f32 {
    let stored = floats_of(&storage.get_vector(id).unwrap());
    dot(query, &stored)
}

/// The exact-path facade: score the live ids among `points` and keep the
/// best `top`, as the scorer facade does with the Dot metric.
fn score_points(
    storage: &SimpleVectorStorage,
    query: &[f32],
    points: &[u32],
    top: usize,
) -> Vec<ScoredPointOffset> {
    let mut scored: Vec<ScoredPointOffset> = Vec::new();
    for id in points.iter().cloned() {
        if storage.check_point(id) {
            scored.push(ScoredPointOffset {
                idx: id,
                score_bits: score_point(storage, query, id).to_bits(),
            });
        }
    }
    peek_top_largest(&scored, top)
}

fn open_empty(dim: usize) -> SimpleVectorStorage {
    open_simple_vector_storage(dim, Distance::Dot, Vec::new()).unwrap()
}

fn five_vectors() -> Vec<Vec<f32>> {
    vec![
        vec![1.0, 0.0, 1.0, 1.0],
        vec![1.0, 0.0, 1.0, 0.0],
        vec![1.0, 1.0, 1.0, 1.0],
        vec![1.0, 1.0, 0.0, 1.0],
        vec![1.0, 0.0, 0.0, 0.0],
    ]
}

#[test]
fn test_score_points() {
    let mut storage = open_empty(4);
    let mut first_id = 0;
    let mut ids = Vec::new();
    for (n, v) in five_vectors().iter().enumerate() {
        let id = storage.put_vector(bits_of(v));
        if n == 0 {
            first_id = id;
        }
        ids.push(id);
    }
    assert_eq!(ids[1], 1);
    assert_eq!(ids[4], 4);
    let _ = first_id;

    let query = vec![0.0f32, 1.0, 1.1, 1.0];

    let closest = score_points(&storage, &query, &[0, 1, 2, 3, 4], 2);
    let top_idx = match closest.get(0) {
        Some(scored_point) => {
            assert_eq!(scored_point.idx, 2);
            assert!((f32::from_bits(scored_point.score_bits) - 3.1).abs() < 1e-6);
            scored_point.idx
        }
        None => {
            panic!("No close vector found!")
        }
    };

    storage.delete(top_idx);

    let closest = score_points(&storage, &query, &[0, 1, 2, 3, 4], 2);

    // raw scorer stability: the same plan scored twice is byte-identical
    let query_points: Vec<u32> = vec![0, 1, 2, 3, 4];
    let plan1 = storage.score_points_plan(&query_points, query_points.len());
    let raw_res1: Vec<ScoredPointOffset> = plan1
        .iter()
        .map(|id| ScoredPointOffset {
            idx: *id,
            score_bits: score_point(&storage, &query, *id).to_bits(),
        })
        .collect();
    let plan2 = storage.score_points_plan(&query_points, query_points.len());
    let raw_res2: Vec<ScoredPointOffset> = plan2
        .iter()
        .map(|id| ScoredPointOffset {
            idx: *id,
            score_bits: score_point(&storage, &query, *id).to_bits(),
        })
        .collect();
    assert_eq!(raw_res1, raw_res2);

    match closest.get(0) {
        Some(scored_point) => {
            assert_ne!(scored_point.idx, 2);
            let pos = raw_res1
                .iter()
                .position(|s| s.idx == scored_point.idx)
                .unwrap();
            assert_eq!(&raw_res1[pos], scored_point);
        }
        None => {
            panic!("No close vector found!")
        }
    };

    let all_ids1: Vec<u32> = storage.iter_ids();
    let all_ids2: Vec<u32> = storage.iter_ids();
    assert_eq!(all_ids1, all_ids2);
    assert!(!all_ids1.contains(&top_idx));
}

#[test]
fn counts_balance_through_mutations() {
    let mut storage = open_empty(4);
    for v in five_vectors() {
        storage.put_vector(bits_of(&v));
        assert_eq!(
            storage.vector_count() + storage.deleted_count(),
            storage.total_vector_count()
        );
    }
    storage.delete(1);
    assert_eq!(
        storage.vector_count() + storage.deleted_count(),
        storage.total_vector_count()
    );
    storage.insert_vector(9, bits_of(&[0.5, 0.5, 0.5, 0.5]));
    assert_eq!(
        storage.vector_count() + storage.deleted_count(),
        storage.total_vector_count()
    );
    assert_eq!(storage.total_vector_count(), 10);
    assert_eq!(storage.deleted_count(), 5);
    assert_eq!(storage.vector_count(), 5);
}

#[test]
fn deleted_matches_absent() {
    let mut storage = open_empty(4);
    for v in five_vectors() {
        storage.put_vector(bits_of(&v));
    }
    storage.delete(3);
    for id in 0..5u32 {
        assert_eq!(storage.is_deleted(id), storage.get_vector(id).is_none());
    }
    assert!(storage.get_vector(100).is_none());
    // past the end an id reads as deleted through the facade
    assert!(storage.is_deleted(100));
    assert_eq!(storage.is_deleted(100), storage.get_vector(100).is_none());
}

#[test]
fn stored_vector_survives_deletion() {
    let mut storage = open_empty(4);
    let v = bits_of(&[2.0, -1.0, 0.5, 8.0]);
    let id = storage.put_vector(v.clone());
    storage.delete(id);
    assert!(storage.get_vector(id).is_none());
    // the raw slot keeps the stored bits for the quantizer's benefit
    assert_eq!(storage.stored_vector(id), v);
}

#[test]
fn insert_over_a_tombstone_revives_the_count() {
    let mut storage = open_empty(4);
    for v in five_vectors() {
        storage.put_vector(bits_of(&v));
    }
    storage.delete(2);
    assert_eq!(storage.deleted_count(), 1);
    storage.insert_vector(2, bits_of(&[7.0, 7.0, 7.0, 7.0]));
    assert_eq!(storage.deleted_count(), 0);
    assert!(!storage.is_deleted(2));
}

#[test]
fn put_then_get_bit_exact() {
    let mut storage = open_empty(4);
    let odd = vec![-0.0f32, 1.0e-40, f32::MIN_POSITIVE, -3.25];
    let id = storage.put_vector(bits_of(&odd));
    let back = storage.get_vector(id).unwrap();
    assert_eq!(back, bits_of(&odd));
}

#[test]
fn delete_is_idempotent() {
    let mut storage = open_empty(4);
    for v in five_vectors() {
        storage.put_vector(bits_of(&v));
    }
    storage.delete(2);
    assert!(storage.is_deleted(2));
    let count = storage.deleted_count();
    storage.delete(2);
    assert!(storage.is_deleted(2));
    assert_eq!(storage.deleted_count(), count);
    // deleting past the end is a no-op
    storage.delete(77);
    assert_eq!(storage.deleted_count(), count);
}

/// Replays the pending writes into a map standing for the durable column
/// and reopens from its scan (byte-lexicographic key order, as an ordered
/// byte-keyed column yields it).
fn reopen(storage: &mut SimpleVectorStorage, dim: usize) -> SimpleVectorStorage {
    let mut column: BTreeMap<Vec<u8>, Vec<u8>> = BTreeMap::new();
    for (key, value) in storage.take_pending_writes() {
        column.insert(key, value);
    }
    let entries: Vec<(Vec<u8>, Vec<u8>)> = column.into_iter().collect();
    open_simple_vector_storage(dim, Distance::Dot, entries).unwrap()
}

#[test]
fn reopen_rebuilds_the_same_view() {
    let mut storage = open_empty(4);
    for v in five_vectors() {
        storage.put_vector(bits_of(&v));
    }
    storage.delete(2);
    let reopened = reopen(&mut storage, 4);
    assert_eq!(reopened.total_vector_count(), storage.total_vector_count());
    assert_eq!(reopened.deleted_count(), storage.deleted_count());
    assert_eq!(reopened.iter_ids(), storage.iter_ids());
    for id in 0..5u32 {
        assert_eq!(reopened.is_deleted(id), storage.is_deleted(id));
        assert_eq!(reopened.get_vector(id), storage.get_vector(id));
    }
    assert_eq!(reopened.get_vector(0).unwrap(), bits_of(&[1.0, 0.0, 1.0, 1.0]));
}

#[test]
fn reopen_with_ids_past_one_byte() {
    // keys at and above 256 scan back in an order that is not the id order
    let mut storage = open_empty(4);
    let v = bits_of(&[4.0, 3.0, 2.0, 1.0]);
    storage.insert_vector(300, v.clone());
    storage.put_vector(bits_of(&[1.0, 1.0, 1.0, 1.0]));
    let reopened = reopen(&mut storage, 4);
    assert_eq!(reopened.total_vector_count(), 302);
    assert_eq!(reopened.get_vector(300).unwrap(), v);
    assert_eq!(reopened.iter_ids(), vec![300, 301]);
}

#[test]
fn insert_with_gap() {
    let mut storage = open_empty(4);
    let v = bits_of(&[1.0, 0.0, 1.0, 1.0]);
    storage.insert_vector(5, v.clone());
    assert_eq!(storage.total_vector_count(), 6);
    for id in 0..5u32 {
        assert!(storage.is_deleted(id));
    }
    assert_eq!(storage.get_vector(5).unwrap(), v);
    let reopened = reopen(&mut storage, 4);
    assert_eq!(reopened.total_vector_count(), 6);
    for id in 0..5u32 {
        assert!(reopened.is_deleted(id));
    }
    assert_eq!(reopened.get_vector(5).unwrap(), v);
}

#[test]
fn update_from_transfers_live_vectors() {
    let mut source = open_empty(4);
    for v in five_vectors() {
        source.put_vector(bits_of(&v));
    }
    source.delete(1);
    let mut destination = open_empty(4);
    destination.put_vector(bits_of(&[9.0, 9.0, 9.0, 9.0]));
    let flag = std::sync::atomic::AtomicBool::new(false);
    let range = destination.update_from(&source, &flag).unwrap();
    assert_eq!(range, (1, 5));
    assert_eq!(destination.total_vector_count(), 5);
    assert_eq!(
        destination.get_vector(1).unwrap(),
        bits_of(&[1.0, 0.0, 1.0, 1.0])
    );
    assert_eq!(
        destination.get_vector(2).unwrap(),
        bits_of(&[1.0, 1.0, 1.0, 1.0])
    );
}

#[test]
fn update_from_cancels_on_stop_flag() {
    let mut source = open_empty(4);
    for i in 0..1000u32 {
        source.put_vector(bits_of(&[i as f32, 0.0, 0.0, 0.0]));
    }
    let mut destination = open_empty(4);
    let flag = std::sync::atomic::AtomicBool::new(true);
    let r = destination.update_from(&source, &flag);
    assert_eq!(r, Err(StorageError::Cancelled));
    // the flag was up before the first transfer, so nothing moved
    assert_eq!(destination.total_vector_count(), 0);
}

#[test]
fn open_rejects_corrupt_keys_and_records() {
    let bad_key = vec![(vec![1u8, 2, 3], vec![0u8; 25])];
    assert!(matches!(
        open_simple_vector_storage(4, Distance::Dot, bad_key),
        Err(StorageError::KeyDecode)
    ));

    let key = vec![0u8, 0, 0, 0];
    let bad_record = vec![(key.clone(), vec![0u8; 3])];
    assert!(matches!(
        open_simple_vector_storage(4, Distance::Dot, bad_record),
        Err(StorageError::RecordDecode)
    ));

    // well-formed record of the wrong dimension
    let mut storage = open_empty(3);
    storage.put_vector(bits_of(&[1.0, 2.0, 3.0]));
    let entries: Vec<(Vec<u8>, Vec<u8>)> = storage.take_pending_writes();
    assert!(matches!(
        open_simple_vector_storage(4, Distance::Dot, entries),
        Err(StorageError::DimensionMismatch)
    ));
}

#[test]
fn top_k_orders_and_truncates() {
    let entries = vec![
        ScoredPointOffset { idx: 0, score_bits: (1.0f32).to_bits() },
        ScoredPointOffset { idx: 1, score_bits: (-2.5f32).to_bits() },
        ScoredPointOffset { idx: 2, score_bits: (3.5f32).to_bits() },
        ScoredPointOffset { idx: 3, score_bits: (1.0f32).to_bits() },
        ScoredPointOffset { idx: 4, score_bits: (0.0f32).to_bits() },
    ];
    let top = peek_top_largest(&entries, 3);
    assert_eq!(top.len(), 3);
    assert_eq!(top[0].idx, 2);
    // tie at 1.0 breaks toward the smaller id
    assert_eq!(top[1].idx, 0);
    assert_eq!(top[2].idx, 3);
    let all = peek_top_largest(&entries, 10);
    assert_eq!(all.len(), 5);
    assert_eq!(all[3].idx, 4);
    assert_eq!(all[4].idx, 1);
    let scores: Vec<f32> = all.iter().map(|s| f32::from_bits(s.score_bits)).collect();
    for w in scores.windows(2) {
        assert!(w[0] >= w[1]);
    }
}

#[test]
fn score_order_key_is_monotone() {
    let samples = [-1000.0f32, -2.5, -0.0, 0.0, 1.0e-40, 1.0, 3.5, 1000.0];
    for i in 0..samples.len() {
        for j in 0..samples.len() {
            if samples[i] < samples[j] {
                assert!(score_order_key(samples[i].to_bits()) < score_order_key(samples[j].to_bits()));
            }
        }
    }
}
