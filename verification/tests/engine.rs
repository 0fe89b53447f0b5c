use victor_db::DbError;
use victor_db::db::Victor;
use victor_db::filesystem::DirectoryHandle as DirectoryOps;
use victor_db::filesystem::memory::DirectoryHandle;
use victor_db::packed_vector::PackedVector;
use victor_db::ranking::{NearestNeighborsResult, ScoredEmbedding};

// The floating-point kernels stay outside the verified core, which works on
// packed vectors and integer order keys; these helpers play that outer role
// for the tests, quantizing raw vectors and scoring candidates.

fn pack(vector: &[f32]) -> PackedVector {
    let min = vector.iter().cloned().fold(f32::INFINITY, f32::min);
    let max = vector.iter().cloned().fold(f32::NEG_INFINITY, f32::max);
    let data = vector
        .iter()
        .map(|&value| {
            let normalized = (value - min) / (max - min);
            (normalized * 255.0).round().clamp(0.0, 255.0) as u8
        })
        .collect();
    PackedVector {
        data,
        min_bits: min.to_bits(),
        max_bits: max.to_bits(),
    }
}

fn unpack(p: &PackedVector) -> Vec<f32> {
    let min = f32::from_bits(p.min_bits);
    let max = f32::from_bits(p.max_bits);
    p.data
        .iter()
        .map(|&bin_index| {
            let normalized = bin_index as f32 / 255.0;
            min + normalized * (max - min)
        })
        .collect()
}

fn cosine(v1: &[f32], v2: &[f32]) -> f32 {
    assert_eq!(v1.len(), v2.len());
    let mut dot_product = 0.0;
    let mut v1_norm = 0.0;
    let mut v2_norm = 0.0;
    for i in 0..v1.len() {
        dot_product += v1[i] * v2[i];
        v1_norm += v1[i] * v1[i];
        v2_norm += v2[i] * v2[i];
    }
    dot_product / (v1_norm.sqrt() * v2_norm.sqrt())
}

// An order key that sorts like the float: larger similarity, larger key.
fn score_key(x: f32) -> u64 {
    let b = x.to_bits();
    let k = if x.is_sign_negative() { !b } else { b | 0x8000_0000 };
    k as u64
}

fn db() -> Victor<DirectoryHandle> {
    Victor::new(DirectoryHandle::default())
}

fn insert(db: &mut Victor<DirectoryHandle>, text: &str, vector: &[f32], tags: &[&str]) {
    let tags: Vec<String> = tags.iter().map(|t| t.to_string()).collect();
    db.add_embedding(text.to_string(), pack(vector), &tags)
        .unwrap();
}

fn search(
    db: &Victor<DirectoryHandle>,
    query: &[f32],
    tags: &[&str],
    top_n: usize,
) -> Vec<NearestNeighborsResult> {
    let tags: Vec<String> = tags.iter().map(|t| t.to_string()).collect();
    let candidates = db.matching_embeddings(&tags).unwrap();
    let scored = candidates
        .into_iter()
        .map(|e| ScoredEmbedding {
            score: score_key(cosine(&unpack(&e.vector), query)),
            embedding: e,
        })
        .collect();
    db.search_scored(scored, top_n).unwrap()
}

#[test]
fn store_and_retrieve() {
    let embedding = vec![1.0, 2.0, 3.0];
    let mut victor = db();
    insert(&mut victor, "hello", &embedding, &[]);
    let result = search(&victor, &embedding, &[], 1);
    assert_eq!(result[0].content, "hello");
}

#[test]
fn store_two_and_retrieve() {
    let embedding_1 = vec![1.0, 2.0, 3.0];
    let embedding_2 = vec![-1.0, -2.0, -3.0];
    let mut victor = db();
    insert(&mut victor, "hello", &embedding_1, &[]);
    insert(&mut victor, "goodbye", &embedding_2, &[]);
    assert_eq!(search(&victor, &embedding_1, &[], 1)[0].content, "hello");
    assert_eq!(search(&victor, &embedding_2, &[], 1)[0].content, "goodbye");
}

#[test]
fn store_two_and_retrieve_with_tags() {
    let embedding_1 = vec![1.0, 2.0, 3.0];
    let embedding_2 = vec![-1.0, -2.0, -3.0];
    let mut victor = db();
    insert(&mut victor, "hello", &embedding_1, &["greetings"]);
    insert(&mut victor, "goodbye", &embedding_2, &["goodbyes"]);
    assert_eq!(search(&victor, &embedding_1, &[], 1)[0].content, "hello");
    assert_eq!(search(&victor, &embedding_2, &[], 1)[0].content, "goodbye");
    // the filter confines the search to the anti-aligned shard
    assert_eq!(
        search(&victor, &embedding_1, &["goodbyes"], 1)[0].content,
        "goodbye"
    );
    assert_eq!(
        search(&victor, &embedding_2, &["greetings"], 1)[0].content,
        "hello"
    );
    // a tag no insertion used matches no shard at all
    assert!(search(&victor, &embedding_1, &["mysterious"], 1).is_empty());
}

#[test]
fn incompatible_size_is_refused() {
    let mut victor = db();
    insert(&mut victor, "hello", &[1.0, 2.0, 3.0], &[]);
    let r = victor.add_embedding(
        "hello".to_string(),
        pack(&[1.0, 2.0, 3.0, 4.0]),
        &Vec::new(),
    );
    assert_eq!(r.err().unwrap(), DbError::RecordSizeMismatch);
}

#[test]
fn query_vector_ranks_itself_first() {
    let mut victor = db();
    let vectors: [[f32; 3]; 4] = [
        [1.0, 0.0, 0.0],
        [0.0, 1.0, 0.0],
        [0.0, 0.0, 1.0],
        [1.0, 1.0, 0.0],
    ];
    for (i, v) in vectors.iter().enumerate() {
        insert(&mut victor, &format!("doc {}", i), v, &[]);
    }
    for (i, v) in vectors.iter().enumerate() {
        let result = search(&victor, v, &[], 1);
        assert_eq!(result[0].content, format!("doc {}", i));
    }
}

#[test]
fn top_k_length_and_order() {
    let mut victor = db();
    insert(&mut victor, "a", &[1.0, 0.0], &[]);
    insert(&mut victor, "b", &[0.9, 0.1], &[]);
    insert(&mut victor, "c", &[0.0, 1.0], &[]);
    let result = search(&victor, &[1.0, 0.0], &[], 2);
    assert_eq!(result.len(), 2);
    assert!(result[0].score >= result[1].score);
    assert_eq!(result[0].content, "a");
    let all = search(&victor, &[1.0, 0.0], &[], 10);
    assert_eq!(all.len(), 3);
    for i in 1..all.len() {
        assert!(all[i - 1].score >= all[i].score);
    }
}

#[test]
fn search_on_empty_database_finds_nothing() {
    let victor = db();
    assert!(search(&victor, &[1.0, 2.0], &[], 5).is_empty());
}

#[test]
fn clear_removes_everything() {
    let mut victor = db();
    insert(&mut victor, "hello", &[1.0, 2.0, 3.0], &["greetings"]);
    insert(&mut victor, "goodbye", &[-1.0, -2.0, -3.0], &[]);
    victor.clear_db().unwrap();
    assert!(search(&victor, &[1.0, 2.0, 3.0], &[], 5).is_empty());
    assert!(!victor.is_projected().unwrap());
    // the database accepts fresh inserts after a clear
    insert(&mut victor, "again", &[1.0, 2.0, 3.0], &[]);
    assert_eq!(search(&victor, &[1.0, 2.0, 3.0], &[], 1)[0].content, "again");
}

#[test]
fn projection_file_round_trip() {
    let mut victor = db();
    assert!(!victor.is_projected().unwrap());
    assert_eq!(victor.eigen_file().err().unwrap(), DbError::NotFound);
    victor.write_projection(vec![1, 2, 3, 4]).unwrap();
    assert!(victor.is_projected().unwrap());
    assert_eq!(victor.eigen_file().unwrap(), vec![1, 2, 3, 4]);
}

#[test]
fn auto_fit_trigger_arms_once_threshold_is_crossed() {
    let mut victor = db();
    let vector: Vec<f32> = (0..1024).map(|i| i as f32).collect();
    let items: Vec<(String, PackedVector)> = (0..1000)
        .map(|i| (format!("doc {}", i), pack(&vector)))
        .collect();
    let out = victor.add_embedding_many(items, &Vec::new()).unwrap();
    assert_eq!(out.ids.len(), 1000);
    // 1000 records of 1056 bytes outgrow the megabyte threshold
    assert!(out.fit_due);
    // once a projection exists the trigger stays off
    victor.write_projection(vec![0]).unwrap();
    let out2 = victor
        .add_embedding_many(
            vec![("more".to_string(), pack(&vector))],
            &Vec::new(),
        )
        .unwrap();
    assert!(!out2.fit_due);
}

#[test]
fn replace_embeddings_rewrites_a_shard() {
    let mut victor = db();
    insert(&mut victor, "hello", &[1.0, 2.0, 3.0], &[]);
    let records = victor.matching_embeddings(&Vec::new()).unwrap();
    assert_eq!(records.len(), 1);
    let id = records[0].id;
    // reproject to two dimensions, keeping the identifier
    let reduced = victor_db::shard::Embedding {
        id,
        vector: pack(&[0.5, 0.25]),
    };
    let tags = victor_db::tags::TagSet::canonicalize(&Vec::new());
    victor.replace_embeddings(&tags, &vec![reduced]).unwrap();
    let after = victor.matching_embeddings(&Vec::new()).unwrap();
    assert_eq!(after.len(), 1);
    assert_eq!(after[0].id, id);
    assert_eq!(after[0].vector.data.len(), 2);
    // the text is still attached through the content file
    let result = search(&victor, &[0.5, 0.25], &[], 1);
    assert_eq!(result[0].content, "hello");
}

#[test]
fn distinct_ids_are_assigned() {
    let mut victor = db();
    let items: Vec<(String, PackedVector)> = (0..16)
        .map(|i| (format!("doc {}", i), pack(&[1.0, 2.0])))
        .collect();
    let out = victor.add_embedding_many(items, &Vec::new()).unwrap();
    for i in 0..out.ids.len() {
        for j in (i + 1)..out.ids.len() {
            assert_ne!(out.ids[i], out.ids[j]);
        }
    }
}

#[test]
fn packed_form_is_stored_and_returned_bit_for_bit() {
    let mut victor = db();
    let p = pack(&[0.25, -3.5, 7.75]);
    let want = (p.data.clone(), p.min_bits, p.max_bits);
    victor
        .add_embedding("exact".to_string(), p, &Vec::new())
        .unwrap();
    let records = victor.matching_embeddings(&Vec::new()).unwrap();
    assert_eq!(records.len(), 1);
    assert_eq!(records[0].vector.data, want.0);
    assert_eq!(records[0].vector.min_bits, want.1);
    assert_eq!(records[0].vector.max_bits, want.2);
}

#[test]
fn corrupt_index_is_reported() {
    let mut dir = DirectoryHandle::new();
    dir.write_file(&"index.bin".to_string(), vec![9, 9, 9]).unwrap();
    let victor = Victor::new(dir);
    assert_eq!(
        victor.matching_embeddings(&Vec::new()).err().unwrap(),
        DbError::Corruption
    );
}

#[test]
fn corrupt_shard_is_reported() {
    let mut victor = db();
    insert(&mut victor, "hello", &[1.0, 2.0, 3.0], &[]);
    // shear the shard mid-record through a fresh directory
    let name = victor_db::index::Index::filename_for_tags(
        &victor_db::tags::TagSet::canonicalize(&Vec::new()),
    );
    let mut dir = DirectoryHandle::new();
    dir.write_file(&name, vec![1, 0, 0, 0, 7]).unwrap();
    let mut ix = victor_db::index::Index::empty();
    ix.files.push(victor_db::tags::TagSet::canonicalize(&Vec::new()));
    let bytes = ix.to_bytes();
    dir.write_file(&"index.bin".to_string(), bytes).unwrap();
    let broken = Victor::new(dir);
    assert_eq!(
        broken.matching_embeddings(&Vec::new()).err().unwrap(),
        DbError::Corruption
    );
}
