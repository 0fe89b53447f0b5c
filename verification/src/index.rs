//! The index file and shard routing.
//!
//! The index is the set of known tag-sets, persisted whole in one file: a
//! count of tag-sets, then each tag-set as a count of tags followed by each
//! tag's byte length and UTF-8 bytes, all counts and lengths little-endian
//! 64-bit. Each tag-set owns exactly one shard file, named by the SHA-256
//! hex digest of the tag-set's canonical serialization followed by `.bin` —
//! a pure function of the set of tags.
use vstd::prelude::*;

use vstd::utf8::{decode_utf8, encode_utf8, encode_utf8_decode_utf8, encode_utf8_valid_utf8,
    valid_utf8};

use crate::DbError;
use crate::bytes::{lemma_u64_le_roundtrip, read_u64_le, u64_le, u64_of_le, write_u64_le};
use crate::bytes_to_string;
use crate::tags::{TagSet, strictly_sorted, tag_views, lemma_canonical_unique};

verus! {

/// The hex digest that sha256::digest assigns to the given bytes.
pub uninterp spec fn sha256_hex_of(b: Seq<u8>) -> Seq<char>;

/// Relies on sha256::digest: the lowercase hex digest of the input bytes, a
/// pure function of them, 64 characters for the 32-byte hash.
#[verifier::external_body]
fn sha256_hex(b: &Vec<u8>) -> (r: String)
    ensures
        r@ == sha256_hex_of(b@),
        r@.len() == 64,
{
    sha256::digest(b)
}

/// The serialized bytes of one tag: byte length, then UTF-8 bytes.
pub open spec fn enc_tag(t: Seq<char>) -> Seq<u8> {
    u64_le(encode_utf8(t).len() as u64) + encode_utf8(t)
}

/// The serialized bytes of a list of tags, in order.
pub open spec fn enc_tags(ts: Seq<Seq<char>>) -> Seq<u8>
    decreases ts.len(),
{
    if ts.len() == 0 {
        Seq::empty()
    } else {
        enc_tag(ts[0]) + enc_tags(ts.drop_first())
    }
}

/// The serialized bytes of one tag-set: tag count, then the tags.
pub open spec fn enc_tagset(ts: Seq<Seq<char>>) -> Seq<u8> {
    u64_le(ts.len() as u64) + enc_tags(ts)
}

/// The serialized bytes of a list of tag-sets, in order.
pub open spec fn enc_tagsets(tss: Seq<Seq<Seq<char>>>) -> Seq<u8>
    decreases tss.len(),
{
    if tss.len() == 0 {
        Seq::empty()
    } else {
        enc_tagset(tss[0]) + enc_tagsets(tss.drop_first())
    }
}

/// The serialized index file: tag-set count, then the tag-sets. The empty
/// file stands for an empty index.
pub open spec fn enc_index(tss: Seq<Seq<Seq<char>>>) -> Seq<u8> {
    u64_le(tss.len() as u64) + enc_tagsets(tss)
}

/// Decodes `cnt` tags starting at `pos`.
pub open spec fn dec_tags(b: Seq<u8>, pos: int, cnt: nat) -> Option<(Seq<Seq<char>>, int)>
    decreases cnt,
{
    if cnt == 0 {
        Some((Seq::empty(), pos))
    } else if pos + 8 <= b.len() {
        let l = u64_of_le(b.subrange(pos, pos + 8)) as int;
        if pos + 8 + l <= b.len() && valid_utf8(b.subrange(pos + 8, pos + 8 + l)) {
            let t = decode_utf8(b.subrange(pos + 8, pos + 8 + l));
            match dec_tags(b, pos + 8 + l, (cnt - 1) as nat) {
                Some((rest, end)) => Some((seq![t] + rest, end)),
                None => None,
            }
        } else {
            None
        }
    } else {
        None
    }
}

/// Decodes `cnt` tag-sets starting at `pos`.
pub open spec fn dec_tagsets(b: Seq<u8>, pos: int, cnt: nat) -> Option<(Seq<Seq<Seq<char>>>, int)>
    decreases cnt,
{
    if cnt == 0 {
        Some((Seq::empty(), pos))
    } else if pos + 8 <= b.len() {
        let m = u64_of_le(b.subrange(pos, pos + 8)) as nat;
        match dec_tags(b, pos + 8, m) {
            Some((ts, mid)) => match dec_tagsets(b, mid, (cnt - 1) as nat) {
                Some((rest, end)) => Some((seq![ts] + rest, end)),
                None => None,
            },
            None => None,
        }
    } else {
        None
    }
}

/// The tag-sets stored in an index file, when the file is well formed; the
/// empty file holds none.
pub open spec fn parse_index(b: Seq<u8>) -> Option<Seq<Seq<Seq<char>>>> {
    if b.len() == 0 {
        Some(Seq::empty())
    } else if b.len() >= 8 {
        match dec_tagsets(b, 8, u64_of_le(b.subrange(0, 8)) as nat) {
            Some((tss, end)) => if end == b.len() {
                Some(tss)
            } else {
                None
            },
            None => None,
        }
    } else {
        None
    }
}

/// Every stored tag-set is canonical and no two hold the same set.
pub open spec fn index_wf(tss: Seq<Seq<Seq<char>>>) -> bool {
    &&& forall|i: int| 0 <= i < tss.len() ==> strictly_sorted(#[trigger] tss[i])
    &&& forall|i: int, j: int|
        0 <= i < j < tss.len() ==> (#[trigger] tss[i]).to_set() != (#[trigger] tss[j]).to_set()
}

/// A tag's encoding fits its length field.
pub open spec fn tags_fit(ts: Seq<Seq<char>>) -> bool {
    ts.len() <= u64::MAX && forall|x: int|
        0 <= x < ts.len() ==> encode_utf8(#[trigger] ts[x]).len() <= u64::MAX
}

/// Every tag-set's counts and lengths fit their fields.
pub open spec fn tagsets_fit(tss: Seq<Seq<Seq<char>>>) -> bool {
    tss.len() <= u64::MAX && forall|i: int| 0 <= i < tss.len() ==> tags_fit(#[trigger] tss[i])
}

proof fn lemma_dec_tags_enc(b: Seq<u8>, pos: int, ts: Seq<Seq<char>>)
    requires
        0 <= pos,
        pos + enc_tags(ts).len() <= b.len(),
        b.subrange(pos, pos + enc_tags(ts).len()) == enc_tags(ts),
        forall|x: int| 0 <= x < ts.len() ==> encode_utf8(#[trigger] ts[x]).len() <= u64::MAX,
    ensures
        dec_tags(b, pos, ts.len()) == Some((ts, pos + enc_tags(ts).len())),
    decreases ts.len(),
{
    if ts.len() == 0 {
        assert(Seq::<Seq<char>>::empty() =~= ts);
    } else {
        let t = ts[0];
        let e = enc_tag(t);
        let whole = enc_tags(ts);
        let rest = enc_tags(ts.drop_first());
        assert(whole == e + rest);
        lemma_u64_le_roundtrip(encode_utf8(t).len() as u64);
        let l = encode_utf8(t).len() as int;
        assert(e.len() == 8 + l);
        assert forall|x: int| 0 <= x < whole.len() implies b[pos + x] == whole[x] by {
            assert(b.subrange(pos, pos + whole.len() as int)[x] == b[pos + x]);
        }
        assert(b.subrange(pos, pos + e.len() as int) =~= e);
        assert(e.subrange(0, 8) =~= u64_le(l as u64));
        assert(e.subrange(8, 8 + l) =~= encode_utf8(t));
        assert(b.subrange(pos, pos + 8) =~= e.subrange(0, 8));
        assert(b.subrange(pos + 8, pos + 8 + l) =~= e.subrange(8, 8 + l));
        encode_utf8_valid_utf8(t);
        encode_utf8_decode_utf8(t);
        assert forall|x: int| 0 <= x < rest.len() implies b.subrange(
            pos + e.len() as int,
            pos + e.len() + rest.len() as int,
        )[x] == rest[x] by {
            assert(b.subrange(pos + e.len() as int, pos + e.len() + rest.len() as int)[x] == b[pos
                + (e.len() + x)]);
            assert(whole[e.len() + x] == rest[x]);
        }
        assert(b.subrange(pos + e.len() as int, pos + e.len() + rest.len() as int) =~= rest);
        lemma_dec_tags_enc(b, pos + e.len() as int, ts.drop_first());
        assert(dec_tags(b, pos, ts.len()).unwrap().0 =~= ts);
    }
}

proof fn lemma_dec_tagsets_enc(b: Seq<u8>, pos: int, tss: Seq<Seq<Seq<char>>>)
    requires
        0 <= pos,
        pos + enc_tagsets(tss).len() <= b.len(),
        b.subrange(pos, pos + enc_tagsets(tss).len()) == enc_tagsets(tss),
        tagsets_fit(tss),
    ensures
        dec_tagsets(b, pos, tss.len()) == Some((tss, pos + enc_tagsets(tss).len())),
    decreases tss.len(),
{
    if tss.len() == 0 {
        assert(Seq::<Seq<Seq<char>>>::empty() =~= tss);
    } else {
        let ts = tss[0];
        let e = enc_tagset(ts);
        let whole = enc_tagsets(tss);
        let rest = enc_tagsets(tss.drop_first());
        assert(whole == e + rest);
        lemma_u64_le_roundtrip(ts.len() as u64);
        assert forall|x: int| 0 <= x < whole.len() implies b[pos + x] == whole[x] by {
            assert(b.subrange(pos, pos + whole.len() as int)[x] == b[pos + x]);
        }
        assert(b.subrange(pos, pos + e.len() as int) =~= e);
        assert(e.subrange(0, 8) =~= u64_le(ts.len() as u64));
        assert(e.subrange(8, e.len() as int) =~= enc_tags(ts));
        assert(b.subrange(pos, pos + 8) =~= e.subrange(0, 8));
        assert(b.subrange(pos + 8, pos + 8 + enc_tags(ts).len() as int) =~= e.subrange(
            8,
            e.len() as int,
        ));
        lemma_dec_tags_enc(b, pos + 8, ts);
        assert forall|x: int| 0 <= x < rest.len() implies b.subrange(
            pos + e.len() as int,
            pos + e.len() + rest.len() as int,
        )[x] == rest[x] by {
            assert(b.subrange(pos + e.len() as int, pos + e.len() + rest.len() as int)[x] == b[pos
                + (e.len() + x)]);
            assert(whole[e.len() + x] == rest[x]);
        }
        assert(b.subrange(pos + e.len() as int, pos + e.len() + rest.len() as int) =~= rest);
        lemma_dec_tagsets_enc(b, pos + e.len() as int, tss.drop_first());
        assert(dec_tagsets(b, pos, tss.len()).unwrap().0 =~= tss);
    }
}

/// Serialization of the index decodes back to the same tag-sets.
pub proof fn lemma_index_roundtrip(tss: Seq<Seq<Seq<char>>>)
    requires
        tagsets_fit(tss),
    ensures
        parse_index(enc_index(tss)) == Some(tss),
{
    let b = enc_index(tss);
    lemma_u64_le_roundtrip(tss.len() as u64);
    assert(b.subrange(0, 8) =~= u64_le(tss.len() as u64));
    assert(b.subrange(8, 8 + enc_tagsets(tss).len() as int) =~= enc_tagsets(tss));
    lemma_dec_tagsets_enc(b, 8, tss);
    if tss.len() == 0 {
        assert(b.len() == 8);
    }
}

/// The canonical views of a list of tag-sets.
pub open spec fn tagset_views(s: Seq<TagSet>) -> Seq<Seq<Seq<char>>> {
    s.map_values(|t: TagSet| t.seq_view())
}

/// The shard file name a tag-set owns: the hex digest of its canonical
/// serialization, then `.bin`.
pub open spec fn shard_filename_of(ts: Seq<Seq<char>>) -> Seq<char> {
    sha256_hex_of(enc_tagset(ts)) + ".bin"@
}

/// Law: the shard file name is a pure function of the set of tags — two
/// canonical tag-sets holding the same tags get the same name.
pub proof fn lemma_shard_filename_pure(a: Seq<Seq<char>>, b: Seq<Seq<char>>)
    requires
        strictly_sorted(a),
        strictly_sorted(b),
        a.to_set() == b.to_set(),
    ensures
        shard_filename_of(a) == shard_filename_of(b),
{
    lemma_canonical_unique(a, b);
}

/// The set of known tag-sets, with each one's shard file name derived from
/// it.
pub struct Index {
    pub files: Vec<TagSet>,
}

impl Index {
    /// The canonical views of the known tag-sets, in insertion order.
    pub open spec fn seq_view(&self) -> Seq<Seq<Seq<char>>> {
        tagset_views(self.files@)
    }

    /// Canonical tag-sets, no two the same set.
    pub open spec fn wf(&self) -> bool {
        index_wf(self.seq_view())
    }

    /// An index with no tag-sets.
    pub fn empty() -> (r: Index)
        ensures
            r.seq_view() == Seq::<Seq<Seq<char>>>::empty(),
            r.wf(),
    {
        let r = Index { files: Vec::new() };
        proof {
            assert(r.seq_view() =~= Seq::<Seq<Seq<char>>>::empty());
        }
        r
    }

    /// The shard file name owned by a tag-set.
    pub fn filename_for_tags(tags: &TagSet) -> (r: String)
        ensures
            r@ == shard_filename_of(tags.seq_view()),
            r@.len() == 68,
            tags_fit(tags.seq_view()),
    {
        let n = tags.tags.len();
        let mut bytes: Vec<u8> = Vec::new();
        write_u64_le(n as u64, &mut bytes);
        for i in 0..n
            invariant
                n == tags.tags@.len(),
                bytes@ == u64_le(n as u64) + enc_tags(tags.seq_view().subrange(0, i as int)),
                forall|j: int|
                    0 <= j < i ==> encode_utf8(#[trigger] tags.seq_view()[j]).len() <= u64::MAX,
        {
            let ghost pre = tags.seq_view().subrange(0, i as int);
            let tb = tags.tags[i].as_str().as_bytes_vec();
            write_u64_le(tb.len() as u64, &mut bytes);
            bytes.extend_from_slice(tb.as_slice());
            proof {
                assert(tb@ == encode_utf8(tags.seq_view()[i as int]));
                lemma_enc_tags_push(pre, tags.seq_view()[i as int]);
                assert(pre.push(tags.seq_view()[i as int]) =~= tags.seq_view().subrange(
                    0,
                    i as int + 1,
                ));
                assert(bytes@ =~= u64_le(n as u64) + enc_tags(
                    tags.seq_view().subrange(0, i as int + 1),
                ));
            }
        }
        proof {
            assert(tags.seq_view().subrange(0, n as int) =~= tags.seq_view());
            assert(bytes@ =~= enc_tagset(tags.seq_view()));
        }
        let digest = sha256_hex(&bytes);
        let r = digest.concat(".bin");
        proof {
            reveal_strlit(".bin");
            assert(r@.len() == 68);
        }
        r
    }

    /// Whether a canonical tag-set is already known.
    pub fn contains(&self, tags: &TagSet) -> (r: bool)
        ensures
            r == exists|i: int|
                0 <= i < self.seq_view().len() && (#[trigger] self.seq_view()[i]).to_set()
                    == tags.set_view(),
    {
        let n = self.files.len();
        for i in 0..n
            invariant
                n == self.files@.len(),
                forall|j: int|
                    0 <= j < i ==> (#[trigger] tagset_views(self.files@)[j]).to_set()
                        != tags.set_view(),
        {
            if self.files[i].same_set(tags) {
                proof {
                    assert(self.seq_view()[i as int] == self.files@[i as int].seq_view());
                    assert(self.seq_view()[i as int].to_set() == tags.set_view());
                }
                return true;
            }
        }
        false
    }

    /// The serialized index file.
    pub fn to_bytes(&self) -> (r: Vec<u8>)
        ensures
            r@ == enc_index(self.seq_view()),
            tagsets_fit(self.seq_view()),
    {
        let n = self.files.len();
        let mut out: Vec<u8> = Vec::new();
        write_u64_le(n as u64, &mut out);
        for i in 0..n
            invariant
                n == self.files@.len(),
                out@ == u64_le(n as u64) + enc_tagsets(self.seq_view().subrange(0, i as int)),
                forall|a: int| 0 <= a < i ==> tags_fit(#[trigger] self.seq_view()[a]),
        {
            let ghost pre = self.seq_view().subrange(0, i as int);
            let ts = &self.files[i];
            let m = ts.tags.len();
            write_u64_le(m as u64, &mut out);
            for k in 0..m
                invariant
                    n == self.files@.len(),
                    i < n,
                    m == self.files@[i as int].tags@.len(),
                    ts == &self.files@[i as int],
                    pre == self.seq_view().subrange(0, i as int),
                    forall|a: int| 0 <= a < i ==> tags_fit(#[trigger] self.seq_view()[a]),
                    forall|b: int|
                        0 <= b < k ==> encode_utf8(#[trigger] ts.seq_view()[b]).len() <= u64::MAX,
                    out@ == u64_le(n as u64) + enc_tagsets(pre) + u64_le(m as u64) + enc_tags(
                        ts.seq_view().subrange(0, k as int),
                    ),
            {
                let ghost tpre = ts.seq_view().subrange(0, k as int);
                let tb = ts.tags[k].as_str().as_bytes_vec();
                write_u64_le(tb.len() as u64, &mut out);
                out.extend_from_slice(tb.as_slice());
                proof {
                    lemma_enc_tags_push(tpre, ts.seq_view()[k as int]);
                    assert(tpre.push(ts.seq_view()[k as int]) =~= ts.seq_view().subrange(
                        0,
                        k as int + 1,
                    ));
                    assert(out@ =~= u64_le(n as u64) + enc_tagsets(pre) + u64_le(m as u64)
                        + enc_tags(ts.seq_view().subrange(0, k as int + 1)));
                }
            }
            proof {
                assert(ts.seq_view().subrange(0, m as int) =~= ts.seq_view());
                assert(tags_fit(ts.seq_view()));
                assert(self.seq_view()[i as int] == ts.seq_view());
                lemma_enc_tagsets_push(pre, self.seq_view()[i as int]);
                assert(pre.push(self.seq_view()[i as int]) =~= self.seq_view().subrange(
                    0,
                    i as int + 1,
                ));
                assert(out@ =~= u64_le(n as u64) + enc_tagsets(
                    self.seq_view().subrange(0, i as int + 1),
                ));
            }
        }
        proof {
            assert(self.seq_view().subrange(0, n as int) =~= self.seq_view());
        }
        out
    }
}

/// Decodes `cnt` tags starting at `pos`; any malformed tag is corruption.
fn parse_tags_at(b: &Vec<u8>, pos: usize, cnt: u64) -> (r: Result<(Vec<String>, usize), DbError>)
    requires
        pos <= b@.len(),
    ensures
        match dec_tags(b@, pos as int, cnt as nat) {
            Some((ts, end)) => r matches Ok((v, p)) && tag_views(v@) == ts && p as int == end && p
                <= b@.len() && p >= pos,
            None => r === Err(DbError::Corruption),
        },
{
    let n = b.len();
    let ghost total = dec_tags(b@, pos as int, cnt as nat);
    let mut out: Vec<String> = Vec::new();
    let mut cur = pos;
    let mut remaining = cnt;
    while remaining > 0
        invariant
            pos <= cur <= n,
            n == b@.len(),
            total == dec_tags(b@, pos as int, cnt as nat),
            total == match dec_tags(b@, cur as int, remaining as nat) {
                Some((rest, end)) => Some((tag_views(out@) + rest, end)),
                None => None::<(Seq<Seq<char>>, int)>,
            },
        decreases remaining,
    {
        if n - cur < 8 {
            return Err(DbError::Corruption);
        }
        let l64 = read_u64_le(b, cur);
        if l64 > (n - cur - 8) as u64 {
            return Err(DbError::Corruption);
        }
        let l = l64 as usize;
        let tb = vstd::slice::slice_to_vec(
            vstd::slice::slice_subrange(b.as_slice(), cur + 8, cur + 8 + l),
        );
        let ghost tbv = tb@;
        match bytes_to_string(tb) {
            Some(tag) => {
                let ghost v0 = tag_views(out@);
                proof {
                    encode_utf8_decode_utf8(tag@);
                    encode_utf8_valid_utf8(tag@);
                    assert(tbv =~= b@.subrange(cur as int + 8, cur as int + 8 + l as int));
                    assert(valid_utf8(b@.subrange(cur as int + 8, cur as int + 8 + l as int)));
                    assert(decode_utf8(b@.subrange(cur as int + 8, cur as int + 8 + l as int))
                        == tag@);
                }
                let ghost tv = tag@;
                out.push(tag);
                cur = cur + 8 + l;
                remaining = remaining - 1;
                proof {
                    assert(tag_views(out@) =~= v0.push(tv));
                    if dec_tags(b@, cur as int, remaining as nat) is Some {
                        let (rest, end) = dec_tags(b@, cur as int, remaining as nat).unwrap();
                        assert(v0 + (seq![tv] + rest) =~= tag_views(out@) + rest);
                    }
                }
            },
            None => {
                proof {
                    assert(tbv =~= b@.subrange(cur as int + 8, cur as int + 8 + l as int));
                }
                return Err(DbError::Corruption);
            },
        }
    }
    proof {
        assert(tag_views(out@) + Seq::<Seq<char>>::empty() =~= tag_views(out@));
    }
    Ok((out, cur))
}

/// Whether the tag list is strictly ascending in the byte order.
fn is_canonical(ts: &TagSet) -> (r: bool)
    ensures
        r == strictly_sorted(ts.seq_view()),
{
    let n = ts.tags.len();
    for i in 0..n
        invariant
            n == ts.tags@.len(),
            forall|a: int, c: int|
                0 <= a < c < n && a < i ==> crate::tags::tag_lt(
                    #[trigger] ts.seq_view()[a],
                    #[trigger] ts.seq_view()[c],
                ),
    {
        let ib = ts.tags[i].as_str().as_bytes_vec();
        proof {
            assert(ts.seq_view()[i as int] == ts.tags@[i as int]@);
        }
        for j in (i + 1)..n
            invariant
                n == ts.tags@.len(),
                i < n,
                ib@ == encode_utf8(ts.seq_view()[i as int]),
                forall|a: int, c: int|
                    0 <= a < c < n && a < i ==> crate::tags::tag_lt(
                        #[trigger] ts.seq_view()[a],
                        #[trigger] ts.seq_view()[c],
                    ),
                forall|c: int|
                    i < c < j ==> crate::tags::tag_lt(
                        ts.seq_view()[i as int],
                        #[trigger] ts.seq_view()[c],
                    ),
        {
            let jb = ts.tags[j].as_str().as_bytes_vec();
            proof {
                assert(ts.seq_view()[j as int] == ts.tags@[j as int]@);
            }
            if !crate::tags::bytes_lt_exec(&ib, &jb) {
                proof {
                    assert(!crate::tags::tag_lt(
                        ts.seq_view()[i as int],
                        ts.seq_view()[j as int],
                    ));
                }
                return false;
            }
        }
    }
    true
}

impl Index {
    /// Decodes an index file. The empty file is the empty index; a file
    /// that does not decode, or whose tag-sets are not canonical and
    /// pairwise distinct, is corruption.
    pub fn from_bytes(b: &Vec<u8>) -> (r: Result<Index, DbError>)
        ensures
            match parse_index(b@) {
                Some(tss) => if index_wf(tss) {
                    r matches Ok(ix) && ix.seq_view() == tss
                } else {
                    r === Err(DbError::Corruption)
                },
                None => r === Err(DbError::Corruption),
            },
    {
        let n = b.len();
        if n == 0 {
            let ix = Index::empty();
            proof {
                assert(ix.seq_view() =~= parse_index(b@).unwrap());
            }
            return Ok(ix);
        }
        if n < 8 {
            return Err(DbError::Corruption);
        }
        let cnt = read_u64_le(b, 0);
        let ghost total = dec_tagsets(b@, 8, cnt as nat);
        let mut files: Vec<TagSet> = Vec::new();
        let mut pos: usize = 8;
        let mut remaining = cnt;
        while remaining > 0
            invariant
                8 <= pos <= n,
                n == b@.len(),
                parse_index(b@) == (match total {
                    Some((tss, end)) => if end == b@.len() as int {
                        Some(tss)
                    } else {
                        None::<Seq<Seq<Seq<char>>>>
                    },
                    None => None::<Seq<Seq<Seq<char>>>>,
                }),
                total == match dec_tagsets(b@, pos as int, remaining as nat) {
                    Some((rest, end)) => Some((tagset_views(files@) + rest, end)),
                    None => None::<(Seq<Seq<Seq<char>>>, int)>,
                },
            decreases remaining,
        {
            if n - pos < 8 {
                return Err(DbError::Corruption);
            }
            let m = read_u64_le(b, pos);
            let ghost v0 = tagset_views(files@);
            match parse_tags_at(b, pos + 8, m) {
                Ok((tags, end)) => {
                    let ghost tsv = tag_views(tags@);
                    files.push(TagSet { tags });
                    pos = end;
                    remaining = remaining - 1;
                    proof {
                        assert(tagset_views(files@) =~= v0.push(tsv));
                        if dec_tagsets(b@, pos as int, remaining as nat) is Some {
                            let (rest, e2) = dec_tagsets(
                                b@,
                                pos as int,
                                remaining as nat,
                            ).unwrap();
                            assert(v0 + (seq![tsv] + rest) =~= tagset_views(files@) + rest);
                        }
                    }
                },
                Err(_) => {
                    return Err(DbError::Corruption);
                },
            }
        }
        if pos != n {
            return Err(DbError::Corruption);
        }
        let ix = Index { files };
        proof {
            assert(tagset_views(ix.files@) + Seq::<Seq<Seq<char>>>::empty() =~= tagset_views(
                ix.files@,
            ));
            assert(parse_index(b@) == Some(ix.seq_view()));
        }
        // the decoded sets must be canonical and pairwise distinct
        let k = ix.files.len();
        for i in 0..k
            invariant
                k == ix.files@.len(),
                parse_index(b@) == Some(ix.seq_view()),
                forall|a: int| 0 <= a < i ==> strictly_sorted(#[trigger] ix.seq_view()[a]),
        {
            if !is_canonical(&ix.files[i]) {
                proof {
                    assert(ix.seq_view()[i as int] == ix.files@[i as int].seq_view());
                }
                return Err(DbError::Corruption);
            }
            proof {
                assert(ix.seq_view()[i as int] == ix.files@[i as int].seq_view());
            }
        }
        for i in 0..k
            invariant
                k == ix.files@.len(),
                parse_index(b@) == Some(ix.seq_view()),
                forall|a: int| 0 <= a < k ==> strictly_sorted(#[trigger] ix.seq_view()[a]),
                forall|a: int, c: int|
                    0 <= a < c < k && a < i ==> (#[trigger] ix.seq_view()[a]).to_set() != (
                    #[trigger] ix.seq_view()[c]).to_set(),
        {
            for j in (i + 1)..k
                invariant
                    k == ix.files@.len(),
                    i < k,
                    parse_index(b@) == Some(ix.seq_view()),
                    forall|a: int| 0 <= a < k ==> strictly_sorted(#[trigger] ix.seq_view()[a]),
                    forall|a: int, c: int|
                        0 <= a < c < k && a < i ==> (#[trigger] ix.seq_view()[a]).to_set() != (
                        #[trigger] ix.seq_view()[c]).to_set(),
                    forall|c: int|
                        i < c < j ==> (ix.seq_view()[i as int]).to_set() != (
                        #[trigger] ix.seq_view()[c]).to_set(),
            {
                if ix.files[i].same_set(&ix.files[j]) {
                    proof {
                        assert(ix.seq_view()[i as int] == ix.files@[i as int].seq_view());
                        assert(ix.seq_view()[j as int] == ix.files@[j as int].seq_view());
                    }
                    return Err(DbError::Corruption);
                }
                proof {
                    assert(ix.seq_view()[i as int] == ix.files@[i as int].seq_view());
                    assert(ix.seq_view()[j as int] == ix.files@[j as int].seq_view());
                }
            }
        }
        Ok(ix)
    }
}

proof fn lemma_enc_tags_push(s: Seq<Seq<char>>, x: Seq<char>)
    ensures
        enc_tags(s.push(x)) == enc_tags(s) + enc_tag(x),
    decreases s.len(),
{
    if s.len() == 0 {
        assert(s.push(x)[0] == x);
        assert(s.push(x).drop_first() =~= Seq::<Seq<char>>::empty());
        assert(enc_tags(s.push(x).drop_first()) == Seq::<u8>::empty());
        assert(enc_tags(s.push(x)) =~= enc_tags(s) + enc_tag(x));
    } else {
        assert(s.push(x).drop_first() =~= s.drop_first().push(x));
        lemma_enc_tags_push(s.drop_first(), x);
        assert(s.push(x)[0] == s[0]);
        assert(enc_tags(s.push(x)) == enc_tag(s.push(x)[0]) + enc_tags(s.drop_first().push(x)));
        assert(enc_tags(s.push(x)) =~= enc_tags(s) + enc_tag(x));
    }
}

proof fn lemma_enc_tagsets_push(s: Seq<Seq<Seq<char>>>, x: Seq<Seq<char>>)
    ensures
        enc_tagsets(s.push(x)) == enc_tagsets(s) + enc_tagset(x),
    decreases s.len(),
{
    if s.len() == 0 {
        assert(s.push(x)[0] == x);
        assert(s.push(x).drop_first() =~= Seq::<Seq<Seq<char>>>::empty());
        assert(enc_tagsets(s.push(x).drop_first()) == Seq::<u8>::empty());
        assert(enc_tagsets(s.push(x)) =~= enc_tagsets(s) + enc_tagset(x));
    } else {
        assert(s.push(x).drop_first() =~= s.drop_first().push(x));
        lemma_enc_tagsets_push(s.drop_first(), x);
        assert(s.push(x)[0] == s[0]);
        assert(enc_tagsets(s.push(x)) == enc_tagset(s.push(x)[0]) + enc_tagsets(
            s.drop_first().push(x),
        ));
        assert(enc_tagsets(s.push(x)) =~= enc_tagsets(s) + enc_tagset(x));
    }
}

} // verus!
