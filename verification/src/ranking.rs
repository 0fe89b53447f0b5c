//! Top-K selection over scored candidates.
//!
//! Similarity itself is a floating-point kernel computed outside the core;
//! it reaches the core as an order key — an unsigned integer that orders the
//! same way the similarity scores do, larger meaning better. The core keeps
//! the candidates with the largest keys, sorted descending, ties resolved in
//! favour of the earlier candidate.
use vstd::prelude::*;

use vstd::multiset::Multiset;
use vstd::seq_lib::lemma_multiset_commutative;

use crate::shard::Embedding;

verus! {

/// A candidate with its similarity order key.
pub struct ScoredEmbedding {
    pub score: u64,
    pub embedding: Embedding,
}

/// One search result: the order key, the stored embedding, and the
/// document text.
pub struct NearestNeighborsResult {
    pub score: u64,
    pub embedding: Embedding,
    pub content: String,
}

/// Scores descending at every pair of positions.
pub open spec fn sorted_desc(s: Seq<ScoredEmbedding>) -> bool {
    forall|i: int, j: int|
        0 <= i < j < s.len() ==> (#[trigger] s[i]).score >= (#[trigger] s[j]).score
}

/// The smaller of two lengths.
pub open spec fn min_nat(a: nat, b: nat) -> nat {
    if a <= b {
        a
    } else {
        b
    }
}

proof fn lemma_seq_insert_multiset(s: Seq<ScoredEmbedding>, i: int, v: ScoredEmbedding)
    requires
        0 <= i <= s.len(),
    ensures
        s.insert(i, v).to_multiset() == s.to_multiset().insert(v),
{
    broadcast use vstd::seq_lib::group_to_multiset_ensures;

    let a = s.take(i);
    let b = s.skip(i);
    assert(s.insert(i, v) =~= a + (seq![v] + b));
    assert(s =~= a + b);
    lemma_multiset_commutative(a, seq![v] + b);
    lemma_multiset_commutative(seq![v], b);
    lemma_multiset_commutative(a, b);
    assert(seq![v].to_multiset() =~= Multiset::<ScoredEmbedding>::empty().insert(v)) by {
        assert(seq![v] =~= Seq::<ScoredEmbedding>::empty().push(v));
        assert(Seq::<ScoredEmbedding>::empty().push(v).to_multiset()
            =~= Seq::<ScoredEmbedding>::empty().to_multiset().insert(v));
    }
    assert(s.insert(i, v).to_multiset() =~= s.to_multiset().insert(v));
}

/// Keeps the `top_n` candidates with the largest keys, sorted descending.
///
/// The result holds `min(top_n, candidates)` entries drawn from the
/// candidates, and no candidate left out scores above any candidate kept.
pub fn top_k(scored: Vec<ScoredEmbedding>, top_n: usize) -> (r: Vec<ScoredEmbedding>)
    ensures
        r@.len() == min_nat(top_n as nat, scored@.len()),
        sorted_desc(r@),
        r@.to_multiset().subset_of(scored@.to_multiset()),
        forall|x: ScoredEmbedding, i: int|
            #![trigger scored@.to_multiset().count(x), r@[i]]
            scored@.to_multiset().count(x) > r@.to_multiset().count(x) && 0 <= i < r@.len()
                ==> x.score <= r@[i].score,
{
    broadcast use vstd::seq_lib::group_to_multiset_ensures;

    let n = scored.len();
    let mut sorted: Vec<ScoredEmbedding> = Vec::new();
    let mut scored = scored;
    let ghost all = scored@;
    // insertion sort, descending; an equal key goes after its equals, so an
    // earlier candidate stays ahead of a later one with the same key
    for i in 0..n
        invariant
            n == all.len(),
            scored@ == all.skip(i as int),
            sorted@.len() == i,
            sorted_desc(sorted@),
            sorted@.to_multiset() == all.take(i as int).to_multiset(),
    {
        let x = scored.remove(0);
        proof {
            assert(all.skip(i as int)[0] == all[i as int]);
            assert(all.skip(i as int).remove(0) =~= all.skip(i as int + 1));
        }
        let m = sorted.len();
        let mut idx: usize = 0;
        while idx < m && sorted[idx].score >= x.score
            invariant
                m == sorted@.len(),
                idx <= m,
                forall|j: int| 0 <= j < idx ==> (#[trigger] sorted@[j]).score >= x.score,
            decreases m - idx,
        {
            idx = idx + 1;
        }
        let ghost s0 = sorted@;
        sorted.insert(idx, x);
        proof {
            lemma_seq_insert_multiset(s0, idx as int, x);
            all.take(i as int).to_multiset_ensures();
            assert(all.take(i as int).push(all[i as int]) =~= all.take(i as int + 1));
            assert(all.take(i as int).push(all[i as int]).to_multiset() =~= all.take(
                i as int,
            ).to_multiset().insert(all[i as int]));
            let s1 = sorted@;
            assert forall|a: int, b: int|
                0 <= a < b < s1.len() implies (#[trigger] s1[a]).score >= (
            #[trigger] s1[b]).score by {
                if b < idx {
                    assert(s1[a] == s0[a] && s1[b] == s0[b]);
                } else if a < idx && b == idx {
                    assert(s1[a] == s0[a]);
                } else if a == idx && b > idx {
                    assert(s1[b] == s0[b - 1]);
                    if idx < s0.len() {
                        assert(s0[idx as int].score < x.score);
                        if b - 1 > idx {
                            assert(s0[idx as int].score >= s0[b - 1].score);
                        }
                    }
                } else if a < idx && b > idx {
                    assert(s1[a] == s0[a] && s1[b] == s0[b - 1]);
                    if a == b - 1 {
                        assert(s0[a].score >= x.score);
                        if idx < s0.len() {
                            assert(s0[idx as int].score < x.score);
                        }
                    }
                } else {
                    assert(s1[a] == s0[a - 1] && s1[b] == s0[b - 1]);
                }
            }
        }
    }
    proof {
        assert(all.take(n as int) =~= all);
    }
    let k = if top_n < n {
        top_n
    } else {
        n
    };
    let ghost sall = sorted@;
    sorted.truncate(k);
    proof {
        assert(sorted@ =~= sall.take(k as int));
        assert(sall =~= sall.take(k as int) + sall.skip(k as int));
        lemma_multiset_commutative(sall.take(k as int), sall.skip(k as int));
        assert forall|x: ScoredEmbedding|
            sorted@.to_multiset().count(x) <= all.to_multiset().count(x) by {
            assert(all.to_multiset().count(x) == sorted@.to_multiset().count(x) + sall.skip(
                k as int,
            ).to_multiset().count(x));
        }
        assert forall|x: ScoredEmbedding, i: int|
            #![trigger all.to_multiset().count(x), sorted@[i]]
            all.to_multiset().count(x) > sorted@.to_multiset().count(x) && 0 <= i
                < sorted@.len() implies x.score <= sorted@[i].score by {
            assert(all.to_multiset().count(x) == sorted@.to_multiset().count(x) + sall.skip(
                k as int,
            ).to_multiset().count(x));
            assert(sall.skip(k as int).to_multiset().count(x) > 0);
            assert(sall.skip(k as int).contains(x));
            let j = choose|j: int|
                0 <= j < sall.skip(k as int).len() && sall.skip(k as int)[j] == x;
            assert(sall[k + j] == x);
            assert(sorted@[i] == sall[i]);
        }
    }
    sorted
}

/// Law: a candidate that strictly outscores every other candidate comes
/// back at the first rank whenever anything is asked for.
pub proof fn lemma_strict_best_ranks_first(
    scored: Seq<ScoredEmbedding>,
    r: Seq<ScoredEmbedding>,
    best: ScoredEmbedding,
    top_n: nat,
)
    requires
        r.len() == min_nat(top_n, scored.len()),
        sorted_desc(r),
        r.to_multiset().subset_of(scored.to_multiset()),
        forall|x: ScoredEmbedding, i: int|
            #![trigger scored.to_multiset().count(x), r[i]]
            scored.to_multiset().count(x) > r.to_multiset().count(x) && 0 <= i < r.len()
                ==> x.score <= r[i].score,
        scored.contains(best),
        forall|i: int| 0 <= i < scored.len() && scored[i] != best ==> (#[trigger] scored[i]).score
            < best.score,
        top_n >= 1,
        scored.len() >= 1,
    ensures
        r[0] == best,
{
    broadcast use vstd::seq_lib::group_to_multiset_ensures;

    assert(r.len() >= 1);
    assert(scored.to_multiset().count(best) > 0);
    if r.to_multiset().count(best) == 0 {
        assert(best.score <= r[0].score);
        assert(r.contains(r[0]));
        assert(r.to_multiset().count(r[0]) > 0);
        assert(scored.to_multiset().count(r[0]) > 0);
        assert(scored.contains(r[0]));
        let j = choose|j: int| 0 <= j < scored.len() && scored[j] == r[0];
        assert(r[0] != best ==> r[0].score < best.score);
        assert(false);
    }
    assert(r.contains(best));
    let j = choose|j: int| 0 <= j < r.len() && r[j] == best;
    if j > 0 {
        assert(r[0].score >= r[j].score);
        assert(r.contains(r[0]));
        assert(r.to_multiset().count(r[0]) > 0);
        assert(scored.to_multiset().count(r[0]) > 0);
        assert(scored.contains(r[0]));
        let x = choose|x: int| 0 <= x < scored.len() && scored[x] == r[0];
        if r[0] != best {
            assert(r[0].score < best.score);
            assert(false);
        }
    }
    if r[0] != best {
        assert(j == 0);
        assert(false);
    }
}

} // verus!
