//! Tag-sets and their canonical form.
//!
//! A tag-set is an unordered set of strings. Its canonical form sorts the
//! tags by the lexicographic order of their UTF-8 bytes and drops
//! duplicates; the canonical form is a pure function of the set, which makes
//! everything derived from it — above all the shard file name — a pure
//! function of the set as well.
use vstd::prelude::*;

use vstd::utf8::{encode_utf8, encode_utf8_decode_utf8};

verus! {

/// Strict lexicographic order on byte strings.
pub open spec fn bytes_lt(a: Seq<u8>, b: Seq<u8>) -> bool
    decreases a.len(),
{
    if b.len() == 0 {
        false
    } else if a.len() == 0 {
        true
    } else if a[0] < b[0] {
        true
    } else if a[0] > b[0] {
        false
    } else {
        bytes_lt(a.drop_first(), b.drop_first())
    }
}

/// Strict lexicographic order on the UTF-8 bytes of two strings.
pub open spec fn tag_lt(a: Seq<char>, b: Seq<char>) -> bool {
    bytes_lt(encode_utf8(a), encode_utf8(b))
}

/// Of two distinct byte strings, exactly one precedes the other.
pub proof fn lemma_bytes_lt_trichotomy(a: Seq<u8>, b: Seq<u8>)
    ensures
        bytes_lt(a, b) || bytes_lt(b, a) || a == b,
        bytes_lt(a, b) ==> !bytes_lt(b, a) && a != b,
    decreases a.len() + b.len(),
{
    if a.len() == 0 && b.len() == 0 {
        assert(a =~= b);
    } else if a.len() > 0 && b.len() > 0 && a[0] == b[0] {
        lemma_bytes_lt_trichotomy(a.drop_first(), b.drop_first());
        if a.drop_first() == b.drop_first() {
            assert(a.len() == b.len());
            assert forall|i: int| 0 <= i < a.len() implies a[i] == b[i] by {
                if i > 0 {
                    assert(a[i] == a.drop_first()[i - 1]);
                    assert(b[i] == b.drop_first()[i - 1]);
                }
            }
            assert(a =~= b);
        }
        if a == b {
            assert(a.drop_first() =~= b.drop_first());
        }
    } else {
        if a == b && a.len() > 0 {
            assert(a[0] == b[0]);
        }
    }
}

/// Lexicographic order is transitive.
pub proof fn lemma_bytes_lt_transitive(a: Seq<u8>, b: Seq<u8>, c: Seq<u8>)
    requires
        bytes_lt(a, b),
        bytes_lt(b, c),
    ensures
        bytes_lt(a, c),
    decreases a.len() + b.len() + c.len(),
{
    if a.len() > 0 && b.len() > 0 && c.len() > 0 {
        if a[0] == b[0] && b[0] == c[0] {
            lemma_bytes_lt_transitive(a.drop_first(), b.drop_first(), c.drop_first());
        }
    }
}

/// UTF-8 encoding is injective: distinct strings have distinct bytes.
pub proof fn lemma_encode_utf8_injective(a: Seq<char>, b: Seq<char>)
    requires
        encode_utf8(a) == encode_utf8(b),
    ensures
        a == b,
{
    encode_utf8_decode_utf8(a);
    encode_utf8_decode_utf8(b);
}

/// A set of tags in canonical form: strictly ascending in the byte order,
/// so free of duplicates.
pub struct TagSet {
    pub tags: Vec<String>,
}

/// Strictly ascending in the byte order.
pub open spec fn strictly_sorted(ts: Seq<Seq<char>>) -> bool {
    forall|i: int, j: int| 0 <= i < j < ts.len() ==> tag_lt(#[trigger] ts[i], #[trigger] ts[j])
}

/// The canonical sequence of tag views.
pub open spec fn tag_views(tags: Seq<String>) -> Seq<Seq<char>> {
    tags.map_values(|t: String| t@)
}

impl TagSet {
    /// The canonical sequence of tags.
    pub open spec fn seq_view(&self) -> Seq<Seq<char>> {
        tag_views(self.tags@)
    }

    /// The set of tags.
    pub open spec fn set_view(&self) -> Set<Seq<char>> {
        self.seq_view().to_set()
    }

    /// Canonical: strictly ascending in the byte order.
    pub open spec fn wf(&self) -> bool {
        strictly_sorted(self.seq_view())
    }

    /// Canonicalizes a list of tags: sorts by the byte order and drops
    /// duplicates. The result is the one canonical form of the set of the
    /// given tags.
    pub fn canonicalize(tags: &Vec<String>) -> (r: TagSet)
        ensures
            r.wf(),
            r.set_view() == tag_views(tags@).to_set(),
    {
        let mut out: Vec<String> = Vec::new();
        let n = tags.len();
        for i in 0..n
            invariant
                n == tags@.len(),
                strictly_sorted(tag_views(out@)),
                tag_views(out@).to_set() =~= tag_views(tags@.subrange(0, i as int)).to_set(),
        {
            insert_sorted(&mut out, &tags[i]);
            proof {
                assert(tag_views(tags@.subrange(0, i as int)).push(tags@[i as int]@)
                    =~= tag_views(tags@.subrange(0, i as int + 1)));
                let prefix = tag_views(tags@.subrange(0, i as int));
                let t0 = tags@[i as int]@;
                assert(prefix.push(t0).to_set() =~= prefix.to_set().insert(t0)) by {
                    assert forall|t: Seq<char>| prefix.push(t0).to_set().contains(
                        t,
                    ) implies prefix.to_set().insert(t0).contains(t) by {
                        let x = choose|x: int|
                            0 <= x < prefix.push(t0).len() && prefix.push(t0)[x] == t;
                        if x < prefix.len() {
                            assert(prefix[x] == t);
                        }
                    }
                    assert forall|t: Seq<char>| prefix.to_set().insert(t0).contains(
                        t,
                    ) implies prefix.push(t0).to_set().contains(t) by {
                        if t == t0 {
                            assert(prefix.push(t0)[prefix.len() as int] == t);
                        } else {
                            let x = choose|x: int| 0 <= x < prefix.len() && prefix[x] == t;
                            assert(prefix.push(t0)[x] == t);
                        }
                    }
                }
            }
        }
        proof {
            assert(tags@.subrange(0, n as int) =~= tags@);
        }
        TagSet { tags: out }
    }

    /// Whether every tag of `self` is a tag of `other`.
    pub fn is_subset_of(&self, other: &TagSet) -> (r: bool)
        ensures
            r == self.set_view().subset_of(other.set_view()),
    {
        let n = self.tags.len();
        for i in 0..n
            invariant
                n == self.tags@.len(),
                forall|j: int| 0 <= j < i ==> other.set_view().contains(self.seq_view()[j]),
        {
            if !contains_tag(&other.tags, &self.tags[i]) {
                proof {
                    assert(self.set_view().contains(self.seq_view()[i as int]));
                }
                return false;
            }
        }
        proof {
            assert forall|t: Seq<char>| self.set_view().contains(t) implies other.set_view()
                .contains(t) by {
                let j = choose|j: int|
                    0 <= j < self.seq_view().len() && self.seq_view()[j] == t;
            }
        }
        true
    }

    /// Whether the two tag-sets hold the same tags.
    pub fn same_set(&self, other: &TagSet) -> (r: bool)
        ensures
            r == (self.set_view() == other.set_view()),
    {
        let a = self.is_subset_of(other);
        let b = other.is_subset_of(self);
        proof {
            if self.set_view().subset_of(other.set_view()) && other.set_view().subset_of(
                self.set_view(),
            ) {
                assert(self.set_view() =~= other.set_view());
            }
        }
        a && b
    }
}

/// Whether the list holds the given tag.
fn contains_tag(tags: &Vec<String>, tag: &String) -> (r: bool)
    ensures
        r == tag_views(tags@).to_set().contains(tag@),
{
    let n = tags.len();
    for i in 0..n
        invariant
            n == tags@.len(),
            forall|j: int| 0 <= j < i ==> tag_views(tags@)[j] != tag@,
    {
        if tags[i] == *tag {
            proof {
                assert(tag_views(tags@)[i as int] == tag@);
            }
            return true;
        }
    }
    proof {
        if tag_views(tags@).to_set().contains(tag@) {
            let j = choose|j: int|
                0 <= j < tag_views(tags@).len() && tag_views(tags@)[j] == tag@;
        }
    }
    false
}

/// Whether `a` precedes `b` in the byte order.
pub fn bytes_lt_exec(a: &Vec<u8>, b: &Vec<u8>) -> (r: bool)
    ensures
        r == bytes_lt(a@, b@),
{
    let na = a.len();
    let nb = b.len();
    let mut i: usize = 0;
    proof {
        assert(a@.skip(0) =~= a@);
        assert(b@.skip(0) =~= b@);
    }
    loop
        invariant
            na == a@.len(),
            nb == b@.len(),
            i <= na,
            i <= nb,
            bytes_lt(a@, b@) == bytes_lt(a@.skip(i as int), b@.skip(i as int)),
        decreases na - i,
    {
        if i == nb {
            return false;
        }
        if i == na {
            return true;
        }
        if a[i] < b[i] {
            proof {
                assert(a@.skip(i as int)[0] == a@[i as int]);
                assert(b@.skip(i as int)[0] == b@[i as int]);
            }
            return true;
        }
        if a[i] > b[i] {
            proof {
                assert(a@.skip(i as int)[0] == a@[i as int]);
                assert(b@.skip(i as int)[0] == b@[i as int]);
            }
            return false;
        }
        proof {
            assert(a@.skip(i as int)[0] == a@[i as int]);
            assert(b@.skip(i as int)[0] == b@[i as int]);
            assert(a@.skip(i as int).drop_first() =~= a@.skip(i as int + 1));
            assert(b@.skip(i as int).drop_first() =~= b@.skip(i as int + 1));
        }
        i = i + 1;
    }
}

/// Inserts a tag into a strictly sorted list, keeping it strictly sorted;
/// a tag already present is dropped.
fn insert_sorted(out: &mut Vec<String>, tag: &String)
    requires
        strictly_sorted(tag_views(old(out)@)),
    ensures
        strictly_sorted(tag_views(final(out)@)),
        tag_views(final(out)@).to_set() == tag_views(old(out)@).to_set().insert(tag@),
{
    let tb = tag.as_str().as_bytes_vec();
    let n = out.len();
    let ghost vs0 = tag_views(out@);
    for k in 0..n
        invariant
            n == out@.len(),
            out@ == old(out)@,
            vs0 == tag_views(out@),
            strictly_sorted(vs0),
            tb@ == encode_utf8(tag@),
            forall|j: int| 0 <= j < k ==> tag_lt(#[trigger] vs0[j], tag@),
    {
        if out[k] == *tag {
            proof {
                assert(vs0[k as int] == tag@);
                assert(tag_views(out@).to_set() =~= tag_views(out@).to_set().insert(tag@));
            }
            return ;
        }
        let ob = out[k].as_str().as_bytes_vec();
        if bytes_lt_exec(&tb, &ob) {
            proof {
                assert(ob@ == encode_utf8(vs0[k as int]));
                assert(tag_lt(tag@, vs0[k as int]));
            }
            out.insert(k, tag.clone());
            proof {
                let vs1 = tag_views(out@);
                assert(vs1 =~= vs0.insert(k as int, tag@));
                assert forall|i: int, j: int| 0 <= i < j < vs1.len() implies tag_lt(
                    #[trigger] vs1[i],
                    #[trigger] vs1[j],
                ) by {
                    if i < k && j == k {
                    } else if i == k && j > k {
                        assert(vs1[j] == vs0[j - 1]);
                        if j - 1 == k {
                            assert(tag_lt(tag@, vs0[k as int]));
                        } else {
                            assert(tag_lt(vs0[k as int], vs0[j - 1]));
                            lemma_bytes_lt_transitive(
                                encode_utf8(tag@),
                                encode_utf8(vs0[k as int]),
                                encode_utf8(vs0[j - 1]),
                            );
                        }
                    } else if i < k && j > k {
                        assert(vs1[i] == vs0[i] && vs1[j] == vs0[j - 1]);
                        if j - 1 == i {
                            assert(false);
                        }
                    } else if i > k && j > k {
                        assert(vs1[i] == vs0[i - 1] && vs1[j] == vs0[j - 1]);
                    }
                }
                assert(vs1.to_set() =~= vs0.to_set().insert(tag@)) by {
                    assert forall|t: Seq<char>| vs1.to_set().contains(t) implies vs0
                        .to_set().insert(tag@).contains(t) by {
                        let x = choose|x: int| 0 <= x < vs1.len() && vs1[x] == t;
                        if x < k {
                            assert(vs0[x] == t);
                        } else if x > k {
                            assert(vs0[x - 1] == t);
                        }
                    }
                    assert forall|t: Seq<char>| vs0.to_set().insert(tag@).contains(
                        t,
                    ) implies vs1.to_set().contains(t) by {
                        if t == tag@ {
                            assert(vs1[k as int] == t);
                        } else {
                            let x = choose|x: int| 0 <= x < vs0.len() && vs0[x] == t;
                            if x < k {
                                assert(vs1[x] == t);
                            } else {
                                assert(vs1[x + 1] == t);
                            }
                        }
                    }
                }
            }
            return ;
        }
        proof {
            lemma_bytes_lt_trichotomy(tb@, ob@);
            if tb@ == ob@ {
                lemma_encode_utf8_injective(tag@, vs0[k as int]);
                assert(false);
            }
            assert(tag_lt(vs0[k as int], tag@));
        }
    }
    out.push(tag.clone());
    proof {
        let vs1 = tag_views(out@);
        assert(vs1 =~= vs0.push(tag@));
        assert forall|i: int, j: int| 0 <= i < j < vs1.len() implies tag_lt(
            #[trigger] vs1[i],
            #[trigger] vs1[j],
        ) by {
            if j < vs0.len() {
                assert(vs1[i] == vs0[i] && vs1[j] == vs0[j]);
            } else {
                assert(vs1[i] == vs0[i] && vs1[j] == tag@);
            }
        }
        assert(vs1.to_set() =~= vs0.to_set().insert(tag@)) by {
            assert forall|t: Seq<char>| vs1.to_set().contains(t) implies vs0.to_set().insert(
                tag@,
            ).contains(t) by {
                let x = choose|x: int| 0 <= x < vs1.len() && vs1[x] == t;
                if x < vs0.len() {
                    assert(vs0[x] == t);
                }
            }
            assert forall|t: Seq<char>| vs0.to_set().insert(tag@).contains(t) implies vs1
                .to_set().contains(t) by {
                if t == tag@ {
                    assert(vs1[vs0.len() as int] == t);
                } else {
                    let x = choose|x: int| 0 <= x < vs0.len() && vs0[x] == t;
                    assert(vs1[x] == t);
                }
            }
        }
    }
}

/// The canonical form of a set of tags is unique: two strictly sorted
/// sequences with the same set of tags are the same sequence.
pub proof fn lemma_canonical_unique(a: Seq<Seq<char>>, b: Seq<Seq<char>>)
    requires
        strictly_sorted(a),
        strictly_sorted(b),
        a.to_set() == b.to_set(),
    ensures
        a == b,
    decreases a.len(),
{
    if a.len() == 0 {
        if b.len() > 0 {
            assert(b.to_set().contains(b[0]));
            assert(false);
        }
        assert(a =~= b);
    } else {
        assert(a.to_set().contains(a.last()));
        assert(b.to_set().contains(b.last()));
        if b.len() == 0 {
            assert(false);
        }
        // the last element of each is the strict maximum of the common set,
        // so the two agree on it
        assert(a.last() == b.last()) by {
            let x = choose|x: int| 0 <= x < b.len() && b[x] == a.last();
            let y = choose|y: int| 0 <= y < a.len() && a[y] == b.last();
            if x < b.len() - 1 {
                assert(tag_lt(a.last(), b.last()));
                if y < a.len() - 1 {
                    assert(tag_lt(b.last(), a.last()));
                    lemma_bytes_lt_transitive(
                        encode_utf8(a.last()),
                        encode_utf8(b.last()),
                        encode_utf8(a.last()),
                    );
                    lemma_bytes_lt_trichotomy(encode_utf8(a.last()), encode_utf8(a.last()));
                }
            }
        }
        assert(a.drop_last().to_set() =~= b.drop_last().to_set()) by {
            assert forall|t: Seq<char>| a.drop_last().to_set().contains(t) implies b
                .drop_last().to_set().contains(t) by {
                lemma_drop_last_membership(a, b, t);
            }
            assert forall|t: Seq<char>| b.drop_last().to_set().contains(t) implies a
                .drop_last().to_set().contains(t) by {
                lemma_drop_last_membership(b, a, t);
            }
        }
        lemma_distinct_drop_last_sorted(a);
        lemma_distinct_drop_last_sorted(b);
        lemma_canonical_unique(a.drop_last(), b.drop_last());
        assert(a.len() == b.len());
        assert forall|i: int| 0 <= i < a.len() implies a[i] == b[i] by {
            if i < a.len() - 1 {
                assert(a[i] == a.drop_last()[i]);
                assert(b[i] == b.drop_last()[i]);
            }
        }
        assert(a =~= b);
    }
}

proof fn lemma_distinct_drop_last_sorted(a: Seq<Seq<char>>)
    requires
        strictly_sorted(a),
        a.len() > 0,
    ensures
        strictly_sorted(a.drop_last()),
{
    assert forall|i: int, j: int| 0 <= i < j < a.drop_last().len() implies tag_lt(
        #[trigger] a.drop_last()[i],
        #[trigger] a.drop_last()[j],
    ) by {
        assert(a.drop_last()[i] == a[i]);
        assert(a.drop_last()[j] == a[j]);
    }
}

proof fn lemma_drop_last_membership(a: Seq<Seq<char>>, b: Seq<Seq<char>>, t: Seq<char>)
    requires
        strictly_sorted(a),
        strictly_sorted(b),
        a.to_set() == b.to_set(),
        a.len() > 0,
        b.len() > 0,
        a.last() == b.last(),
        a.drop_last().to_set().contains(t),
    ensures
        b.drop_last().to_set().contains(t),
{
    let x = choose|x: int| 0 <= x < a.drop_last().len() && a.drop_last()[x] == t;
    assert(a[x] == t);
    assert(tag_lt(t, a.last()));
    assert(a.to_set().contains(t));
    let y = choose|y: int| 0 <= y < b.len() && b[y] == t;
    if y == b.len() - 1 {
        lemma_bytes_lt_trichotomy(encode_utf8(t), encode_utf8(a.last()));
        assert(false);
    }
    assert(b.drop_last()[y] == t);
}

} // verus!
