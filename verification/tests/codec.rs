use victor_db::DbError;
use victor_db::bytes::{read_u32_le, read_u64_le, write_u32_le, write_u64_le};
use victor_db::content::ContentMap;
use victor_db::index::Index;
use victor_db::packed_vector::PackedVector;
use victor_db::shard::{Embedding, Uuid, parse_shard_file, serialize_records};
use victor_db::tags::TagSet;

fn packed(data: Vec<u8>, min: f32, max: f32) -> PackedVector {
    PackedVector {
        data,
        min_bits: min.to_bits(),
        max_bits: max.to_bits(),
    }
}

#[test]
fn test_serialization_size() {
    let packed_vector = packed(vec![0; 1024], -0.1, 0.1);
    let unpacked_vector: Vec<f32> = vec![0.0; 1024];
    let bits = packed_vector.to_bytes();
    let unpacked_bits = bincode::serialize(&unpacked_vector).unwrap();
    assert_eq!(bits.len(), 1040);
    assert_eq!(unpacked_bits.len(), 4104);
}

#[test]
fn u32_le_round_trip() {
    let mut out: Vec<u8> = Vec::new();
    write_u32_le(0xdead_beef, &mut out);
    assert_eq!(out, vec![0xef, 0xbe, 0xad, 0xde]);
    assert_eq!(read_u32_le(&out, 0), 0xdead_beef);
}

#[test]
fn u64_le_round_trip() {
    let mut out: Vec<u8> = Vec::new();
    write_u64_le(0x0123_4567_89ab_cdef, &mut out);
    assert_eq!(out.len(), 8);
    assert_eq!(read_u64_le(&out, 0), 0x0123_4567_89ab_cdef);
}

#[test]
fn packed_vector_bytes_round_trip() {
    let p = packed(vec![1, 2, 3, 250], -1.5, 2.5);
    let bytes = p.to_bytes();
    assert_eq!(bytes.len(), 4 + 16);
    let q = PackedVector::from_bytes(&bytes).unwrap();
    assert_eq!(q.data, vec![1, 2, 3, 250]);
    assert_eq!(q.min_bits, (-1.5f32).to_bits());
    assert_eq!(q.max_bits, (2.5f32).to_bits());
}

#[test]
fn packed_vector_rejects_truncated_bytes() {
    let p = packed(vec![7; 10], 0.0, 1.0);
    let mut bytes = p.to_bytes();
    bytes.pop();
    assert!(matches!(PackedVector::from_bytes(&bytes), Err(DbError::Corruption)));
}

#[test]
fn record_round_trip() {
    let e = Embedding {
        id: Uuid { hi: 17, lo: 4242 },
        vector: packed(vec![9, 8, 7], -1.0, 1.0),
    };
    let bytes = e.serialize_embedding();
    assert_eq!(bytes.len(), 3 + 32);
    let d = Embedding::deserialize_embedding(&bytes).unwrap();
    assert_eq!(d.id, Uuid { hi: 17, lo: 4242 });
    assert_eq!(d.vector.data, vec![9, 8, 7]);
    assert_eq!(d.vector.min_bits, (-1.0f32).to_bits());
    assert_eq!(d.vector.max_bits, (1.0f32).to_bits());
}

#[test]
fn record_rejects_short_bytes() {
    let bytes = vec![0u8; 31];
    assert!(Embedding::deserialize_embedding(&bytes).is_err());
}

#[test]
fn batch_must_share_one_size() {
    let a = Embedding { id: Uuid { hi: 1, lo: 1 }, vector: packed(vec![0, 0, 0], 0.0, 1.0) };
    let b = Embedding { id: Uuid { hi: 2, lo: 2 }, vector: packed(vec![0, 0, 0, 0], 0.0, 1.0) };
    let mixed = vec![a, b];
    assert!(serialize_records(&mixed).is_err());
    let empty: Vec<Embedding> = Vec::new();
    assert!(serialize_records(&empty).is_err());
}

#[test]
fn batch_record_size_counts_framing() {
    let a = Embedding { id: Uuid { hi: 1, lo: 1 }, vector: packed(vec![5, 6, 7], 0.0, 1.0) };
    let (rs, bytes) = serialize_records(&vec![a]).unwrap();
    assert_eq!(rs, 3 + 32);
    assert_eq!(bytes.len(), 35);
}

#[test]
fn shard_parses_records_in_order() {
    let a = Embedding { id: Uuid { hi: 1, lo: 10 }, vector: packed(vec![1, 2], 0.0, 1.0) };
    let b = Embedding { id: Uuid { hi: 2, lo: 20 }, vector: packed(vec![3, 4], 0.0, 1.0) };
    let (rs, body) = serialize_records(&vec![a, b]).unwrap();
    let mut file: Vec<u8> = Vec::new();
    write_u32_le(rs, &mut file);
    file.extend_from_slice(&body);
    let records = parse_shard_file(&file).unwrap();
    assert_eq!(records.len(), 2);
    assert_eq!(records[0].id, Uuid { hi: 1, lo: 10 });
    assert_eq!(records[1].id, Uuid { hi: 2, lo: 20 });
    assert_eq!(records[1].vector.data, vec![3, 4]);
}

#[test]
fn shard_empty_file_holds_no_records() {
    let file: Vec<u8> = Vec::new();
    assert_eq!(parse_shard_file(&file).unwrap().len(), 0);
}

#[test]
fn shard_rejects_zero_record_size() {
    let mut file: Vec<u8> = Vec::new();
    write_u32_le(0, &mut file);
    assert!(parse_shard_file(&file).is_err());
}

#[test]
fn shard_rejects_torn_trailing_record() {
    let a = Embedding { id: Uuid { hi: 1, lo: 1 }, vector: packed(vec![1, 2], 0.0, 1.0) };
    let (rs, body) = serialize_records(&vec![a]).unwrap();
    let mut file: Vec<u8> = Vec::new();
    write_u32_le(rs, &mut file);
    file.extend_from_slice(&body);
    file.pop();
    assert!(parse_shard_file(&file).is_err());
}

#[test]
fn content_map_stores_and_finds() {
    let mut m = ContentMap::new();
    m.insert(Uuid { hi: 1, lo: 2 }, "hello".to_string());
    m.insert(Uuid { hi: 3, lo: 4 }, "goodbye".to_string());
    assert_eq!(m.get(Uuid { hi: 1, lo: 2 }).unwrap(), "hello");
    assert_eq!(m.get(Uuid { hi: 3, lo: 4 }).unwrap(), "goodbye");
    assert!(m.get(Uuid { hi: 9, lo: 9 }).is_none());
}

#[test]
fn content_map_later_entry_wins() {
    let mut m = ContentMap::new();
    m.insert(Uuid { hi: 1, lo: 2 }, "old".to_string());
    m.insert(Uuid { hi: 1, lo: 2 }, "new".to_string());
    assert_eq!(m.get(Uuid { hi: 1, lo: 2 }).unwrap(), "new");
}

#[test]
fn content_file_round_trip() {
    let mut m = ContentMap::new();
    m.insert(Uuid { hi: 5, lo: 6 }, "pineapple".to_string());
    m.insert(Uuid { hi: 7, lo: 8 }, "rocks".to_string());
    let bytes = m.to_bytes();
    let n = ContentMap::from_bytes(&bytes).unwrap();
    assert_eq!(n.get(Uuid { hi: 5, lo: 6 }).unwrap(), "pineapple");
    assert_eq!(n.get(Uuid { hi: 7, lo: 8 }).unwrap(), "rocks");
}

#[test]
fn content_empty_file_is_empty_map() {
    let bytes: Vec<u8> = Vec::new();
    let m = ContentMap::from_bytes(&bytes).unwrap();
    assert!(m.get(Uuid { hi: 0, lo: 0 }).is_none());
}

#[test]
fn content_rejects_garbage() {
    let bytes = vec![1u8, 2, 3];
    assert!(ContentMap::from_bytes(&bytes).is_err());
}

#[test]
fn tags_canonical_form_sorts_and_dedups() {
    let raw = vec!["b".to_string(), "a".to_string(), "b".to_string()];
    let ts = TagSet::canonicalize(&raw);
    assert_eq!(ts.tags, vec!["a".to_string(), "b".to_string()]);
}

#[test]
fn tag_subset_and_equality() {
    let small = TagSet::canonicalize(&vec!["a".to_string()]);
    let big = TagSet::canonicalize(&vec!["b".to_string(), "a".to_string()]);
    assert!(small.is_subset_of(&big));
    assert!(!big.is_subset_of(&small));
    let big2 = TagSet::canonicalize(&vec!["a".to_string(), "b".to_string(), "a".to_string()]);
    assert!(big.same_set(&big2));
    assert!(!big.same_set(&small));
}

#[test]
fn shard_name_is_a_pure_function_of_the_set() {
    let a = TagSet::canonicalize(&vec!["x".to_string(), "y".to_string()]);
    let b = TagSet::canonicalize(&vec!["y".to_string(), "x".to_string(), "y".to_string()]);
    let name_a = Index::filename_for_tags(&a);
    let name_b = Index::filename_for_tags(&b);
    assert_eq!(name_a, name_b);
    assert_eq!(name_a.len(), 68);
    assert!(name_a.ends_with(".bin"));
    let c = TagSet::canonicalize(&vec!["x".to_string()]);
    assert_ne!(Index::filename_for_tags(&c), name_a);
}

#[test]
fn index_file_round_trip() {
    let mut ix = Index::empty();
    ix.files.push(TagSet::canonicalize(&vec!["greetings".to_string()]));
    ix.files.push(TagSet::canonicalize(&vec!["goodbyes".to_string(), "other".to_string()]));
    let bytes = ix.to_bytes();
    let back = Index::from_bytes(&bytes).unwrap();
    assert_eq!(back.files.len(), 2);
    assert!(back.files[0].same_set(&ix.files[0]));
    assert!(back.files[1].same_set(&ix.files[1]));
}

#[test]
fn index_empty_file_is_empty_index() {
    let bytes: Vec<u8> = Vec::new();
    let ix = Index::from_bytes(&bytes).unwrap();
    assert_eq!(ix.files.len(), 0);
}

#[test]
fn index_rejects_non_canonical_sets() {
    let ix = Index {
        files: vec![TagSet { tags: vec!["b".to_string(), "a".to_string()] }],
    };
    let bytes = ix.to_bytes();
    assert!(Index::from_bytes(&bytes).is_err());
}

#[test]
fn index_rejects_duplicate_sets() {
    let ix = Index {
        files: vec![
            TagSet { tags: vec!["a".to_string()] },
            TagSet { tags: vec!["a".to_string()] },
        ],
    };
    let bytes = ix.to_bytes();
    assert!(Index::from_bytes(&bytes).is_err());
}

#[test]
fn index_rejects_garbage() {
    let bytes = vec![9u8, 9, 9];
    assert!(Index::from_bytes(&bytes).is_err());
}
