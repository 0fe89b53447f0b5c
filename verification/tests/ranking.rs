use victor_db::packed_vector::PackedVector;
use victor_db::ranking::{ScoredEmbedding, top_k};
use victor_db::shard::{Embedding, Uuid};

fn candidate(score: u64, tag: u64) -> ScoredEmbedding {
    ScoredEmbedding {
        score,
        embedding: Embedding {
            id: Uuid { hi: tag, lo: tag },
            vector: PackedVector { data: vec![0], min_bits: 0, max_bits: 0 },
        },
    }
}

#[test]
fn top_k_keeps_the_largest_sorted_descending() {
    let scored = vec![
        candidate(5, 0),
        candidate(9, 1),
        candidate(1, 2),
        candidate(7, 3),
    ];
    let r = top_k(scored, 2);
    assert_eq!(r.len(), 2);
    assert_eq!(r[0].score, 9);
    assert_eq!(r[1].score, 7);
}

#[test]
fn top_k_is_bounded_by_the_candidate_count() {
    let scored = vec![candidate(3, 0), candidate(4, 1)];
    let r = top_k(scored, 10);
    assert_eq!(r.len(), 2);
    assert_eq!(r[0].score, 4);
    assert_eq!(r[1].score, 3);
}

#[test]
fn top_k_of_zero_is_empty() {
    let scored = vec![candidate(3, 0)];
    assert!(top_k(scored, 0).is_empty());
}

#[test]
fn top_k_breaks_ties_in_favour_of_the_earlier_candidate() {
    let scored = vec![candidate(5, 0), candidate(5, 1), candidate(5, 2)];
    let r = top_k(scored, 2);
    assert_eq!(r.len(), 2);
    assert_eq!(r[0].embedding.id, Uuid { hi: 0, lo: 0 });
    assert_eq!(r[1].embedding.id, Uuid { hi: 1, lo: 1 });
}
