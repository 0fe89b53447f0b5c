//! Embedding records and the shard file format.
//!
//! A shard holds every embedding of one tag-set. Its layout is a four-byte
//! little-endian record size followed by consecutive records of exactly that
//! many bytes. A record is the identifier's sixteen bytes followed by the
//! serialized packed vector, so a record of a `d`-dimensional embedding takes
//! `d + 32` bytes, and the record size is constant within a shard exactly
//! when every embedding in it has the same dimensionality.
use vstd::prelude::*;

use vstd::arithmetic::div_mod::{
    lemma_mod_multiples_basic, lemma_mod_sub_multiples_vanish, lemma_small_mod,
};

use crate::DbError;
use crate::bytes::{lemma_u32_le_roundtrip, lemma_u64_le_roundtrip, read_u32_le, read_u64_le,
    u32_le, u32_of_le, u64_le, u64_of_le, write_u32_le, write_u64_le};
use crate::packed_vector::{PackedVector, PackedVectorView, dec_packed, enc_packed,
    lemma_packed_roundtrip};

verus! {

/// A 128-bit record identifier, split into two 64-bit halves.
#[derive(Clone, Copy, Debug, PartialEq, Eq, Structural)]
pub struct Uuid {
    pub hi: u64,
    pub lo: u64,
}

impl Uuid {
    /// Relies on uuid::Uuid::new_v4 for a fresh random version-4 identifier.
    /// The value is random, so nothing is promised of it.
    #[verifier::external_body]
    pub(crate) fn new_v4() -> Uuid {
        let x = uuid::Uuid::new_v4().as_u128();
        Uuid { hi: (x >> 64) as u64, lo: x as u64 }
    }
}

/// An identified embedding in its stored, packed form.
pub struct Embedding {
    pub id: Uuid,
    pub vector: PackedVector,
}

/// The mathematical value of an [`Embedding`].
pub struct EmbeddingView {
    pub id: Uuid,
    pub vector: PackedVectorView,
}

impl View for Embedding {
    type V = EmbeddingView;

    open spec fn view(&self) -> EmbeddingView {
        EmbeddingView { id: self.id, vector: self.vector@ }
    }
}

/// The views of a list of embeddings.
pub open spec fn views_of(s: Seq<Embedding>) -> Seq<EmbeddingView> {
    s.map_values(|e: Embedding| e@)
}

/// The serialized bytes of one record: identifier, then packed vector.
pub open spec fn enc_record(e: EmbeddingView) -> Seq<u8> {
    u64_le(e.id.hi) + u64_le(e.id.lo) + enc_packed(e.vector)
}

/// The record serialized as `b`, when `b` is a well-formed record.
pub open spec fn dec_record(b: Seq<u8>) -> Option<EmbeddingView> {
    if b.len() >= 32 {
        match dec_packed(b.subrange(16, b.len() as int)) {
            Some(p) => Some(
                EmbeddingView {
                    id: Uuid { hi: u64_of_le(b.subrange(0, 8)), lo: u64_of_le(b.subrange(8, 16)) },
                    vector: p,
                },
            ),
            None => None,
        }
    } else {
        None
    }
}

/// A record takes exactly thirty-two bytes beyond the quantized payload, and
/// decoding it restores the record.
pub proof fn lemma_record_roundtrip(e: EmbeddingView)
    requires
        e.vector.data.len() <= u64::MAX,
    ensures
        enc_record(e).len() == e.vector.data.len() + 32,
        dec_record(enc_record(e)) == Some(e),
{
    let b = enc_record(e);
    lemma_u64_le_roundtrip(e.id.hi);
    lemma_u64_le_roundtrip(e.id.lo);
    lemma_packed_roundtrip(e.vector);
    assert(b.subrange(0, 8) =~= u64_le(e.id.hi));
    assert(b.subrange(8, 16) =~= u64_le(e.id.lo));
    assert(b.subrange(16, b.len() as int) =~= enc_packed(e.vector));
    assert(dec_record(b).unwrap() == e);
}

/// All the given byte strings, one after another.
pub open spec fn concat_bytes(s: Seq<Seq<u8>>) -> Seq<u8>
    decreases s.len(),
{
    if s.len() == 0 {
        Seq::empty()
    } else {
        s[0] + concat_bytes(s.drop_first())
    }
}

pub proof fn lemma_concat_bytes_push(s: Seq<Seq<u8>>, x: Seq<u8>)
    ensures
        concat_bytes(s.push(x)) == concat_bytes(s) + x,
    decreases s.len(),
{
    if s.len() == 0 {
        assert(s.push(x)[0] == x);
        assert(s.push(x).drop_first() =~= Seq::<Seq<u8>>::empty());
        assert(concat_bytes(s.push(x).drop_first()) == Seq::<u8>::empty());
        assert(concat_bytes(s.push(x)) == x + Seq::<u8>::empty());
        assert(concat_bytes(s) == Seq::<u8>::empty());
        assert(concat_bytes(s.push(x)) =~= concat_bytes(s) + x);
    } else {
        assert(s.push(x).drop_first() =~= s.drop_first().push(x));
        lemma_concat_bytes_push(s.drop_first(), x);
        assert(s.push(x)[0] == s[0]);
        assert(concat_bytes(s.push(x)) == s[0] + (concat_bytes(s.drop_first()) + x));
        assert(concat_bytes(s.push(x)) =~= concat_bytes(s) + x);
    }
}

/// Concatenating records of one fixed size multiplies that size out.
pub proof fn lemma_concat_bytes_len(s: Seq<Seq<u8>>, rs: nat)
    requires
        forall|i: int| 0 <= i < s.len() ==> (#[trigger] s[i]).len() == rs,
    ensures
        concat_bytes(s).len() == s.len() * rs,
    decreases s.len(),
{
    if s.len() == 0 {
    } else {
        lemma_concat_bytes_len(s.drop_first(), rs);
        assert(s.len() * rs == rs + (s.len() - 1) * rs) by (nonlinear_arith);
    }
}

/// `b` cut into consecutive pieces of `rs` bytes.
pub open spec fn chunks_of(b: Seq<u8>, rs: nat) -> Seq<Seq<u8>>
    recommends
        rs > 0,
        b.len() as int % rs as int == 0,
    decreases b.len(),
{
    if rs == 0 || b.len() < rs {
        Seq::empty()
    } else {
        seq![b.subrange(0, rs as int)] + chunks_of(b.skip(rs as int), rs)
    }
}

/// The records decoded from the given chunks; `None` when any chunk is not a
/// well-formed record.
pub open spec fn dec_records(cs: Seq<Seq<u8>>) -> Option<Seq<EmbeddingView>>
    decreases cs.len(),
{
    if cs.len() == 0 {
        Some(Seq::empty())
    } else {
        match (dec_record(cs[0]), dec_records(cs.drop_first())) {
            (Some(e), Some(rest)) => Some(seq![e] + rest),
            _ => None,
        }
    }
}

/// The embeddings stored in a shard file, when the file is well formed: an
/// empty file holds none; otherwise a positive record size in the header
/// must divide the body evenly and every record must decode.
pub open spec fn parse_shard(b: Seq<u8>) -> Option<Seq<EmbeddingView>> {
    if b.len() == 0 {
        Some(Seq::empty())
    } else if b.len() >= 4 {
        let rs = u32_of_le(b.subrange(0, 4));
        if rs > 0 && (b.len() - 4) % rs as int == 0 {
            dec_records(chunks_of(b.skip(4), rs as nat))
        } else {
            None
        }
    } else {
        None
    }
}

/// A shard file some parse reads: well-formedness of the stored bytes.
pub open spec fn shard_wf(b: Seq<u8>) -> bool {
    parse_shard(b) is Some
}

/// The size invariant of a shard file: empty, or a header followed by an
/// integral number of records.
pub open spec fn shard_size_ok(b: Seq<u8>) -> bool {
    ||| b.len() == 0
    ||| {
        &&& b.len() >= 4
        &&& u32_of_le(b.subrange(0, 4)) > 0
        &&& (b.len() - 4) % u32_of_le(b.subrange(0, 4)) as int == 0
    }
}

/// Law: every well-formed shard file is empty or holds a four-byte header
/// followed by a whole number of records of the size the header gives.
pub proof fn lemma_shard_wf_size(b: Seq<u8>)
    requires
        shard_wf(b),
    ensures
        shard_size_ok(b),
{
}

/// A shard file after appending records: an empty file first receives the
/// header, then the records follow the existing bytes.
pub open spec fn shard_append(file: Seq<u8>, vs: Seq<EmbeddingView>, rs: u32) -> Seq<u8> {
    let body = concat_bytes(vs.map_values(|e: EmbeddingView| enc_record(e)));
    if file.len() == 0 {
        u32_le(rs) + body
    } else {
        file + body
    }
}

#[verifier::rlimit(100)]
#[verifier::spinoff_prover]
proof fn lemma_dec_records_concat(body: Seq<u8>, vs: Seq<EmbeddingView>, rs: nat, es: Seq<
    EmbeddingView,
>)
    requires
        rs > 0,
        rs <= u32::MAX,
        body.len() as int % rs as int == 0,
        forall|i: int| 0 <= i < vs.len() ==> enc_record(#[trigger] vs[i]).len() == rs,
        dec_records(chunks_of(body, rs)) == Some(es),
    ensures
        dec_records(
            chunks_of(body + concat_bytes(vs.map_values(|e: EmbeddingView| enc_record(e))), rs),
        ) == Some(es + vs),
    decreases body.len(), vs.len(),
{
    let encs = vs.map_values(|e: EmbeddingView| enc_record(e));
    let whole = body + concat_bytes(encs);
    if body.len() == 0 {
        assert(es =~= Seq::<EmbeddingView>::empty());
        if vs.len() == 0 {
            assert(whole =~= Seq::<u8>::empty());
            assert(es + vs =~= Seq::<EmbeddingView>::empty());
        } else {
            let e0 = vs[0];
            assert(encs[0] == enc_record(e0));
            assert(enc_record(e0).len() == rs);
            assert(e0.vector.data.len() + 32 == rs) by {
                assert(enc_record(e0).len() == 16 + enc_packed(e0.vector).len());
            }
            lemma_record_roundtrip(e0);
            assert(whole =~= concat_bytes(encs));
            assert(concat_bytes(encs) == encs[0] + concat_bytes(encs.drop_first()));
            assert(whole.len() >= rs);
            assert(whole.subrange(0, rs as int) =~= enc_record(e0));
            assert(whole.skip(rs as int) =~= Seq::<u8>::empty() + concat_bytes(
                encs.drop_first(),
            ));
            assert(encs.drop_first() =~= vs.drop_first().map_values(
                |e: EmbeddingView| enc_record(e),
            ));
            lemma_dec_records_concat(
                Seq::<u8>::empty(),
                vs.drop_first(),
                rs,
                Seq::<EmbeddingView>::empty(),
            );
            assert(chunks_of(whole, rs) == seq![whole.subrange(0, rs as int)] + chunks_of(
                whole.skip(rs as int),
                rs,
            ));
            assert(chunks_of(whole, rs).drop_first() =~= chunks_of(whole.skip(rs as int), rs));
            assert(dec_records(chunks_of(whole, rs)) == Some(
                seq![e0] + (Seq::<EmbeddingView>::empty() + vs.drop_first()),
            ));
            assert(seq![e0] + (Seq::<EmbeddingView>::empty() + vs.drop_first()) =~= es + vs);
        }
    } else {
        if body.len() < rs {
            lemma_small_mod(body.len(), rs);
            assert(false);
        }
        let c = chunks_of(body, rs);
        assert(c == seq![body.subrange(0, rs as int)] + chunks_of(body.skip(rs as int), rs));
        assert(c.len() > 0);
        assert(c[0] == body.subrange(0, rs as int));
        let e0 = dec_record(c[0]);
        let rest0 = dec_records(c.drop_first());
        assert(e0 is Some && rest0 is Some);
        assert(es == seq![e0.unwrap()] + rest0.unwrap());
        assert(c.drop_first() =~= chunks_of(body.skip(rs as int), rs));
        lemma_mod_sub_multiples_vanish(body.len() as int, rs as int);
        assert(body.skip(rs as int).len() as int % rs as int == 0);
        lemma_dec_records_concat(body.skip(rs as int), vs, rs, rest0.unwrap());
        assert(whole.subrange(0, rs as int) =~= body.subrange(0, rs as int));
        assert(whole.skip(rs as int) =~= body.skip(rs as int) + concat_bytes(encs));
        assert(whole.len() >= rs);
        assert(chunks_of(whole, rs) == seq![whole.subrange(0, rs as int)] + chunks_of(
            whole.skip(rs as int),
            rs,
        ));
        assert(chunks_of(whole, rs).drop_first() =~= chunks_of(whole.skip(rs as int), rs));
        assert(dec_records(chunks_of(whole, rs)) == Some(
            seq![e0.unwrap()] + (rest0.unwrap() + vs),
        ));
        assert(seq![e0.unwrap()] + (rest0.unwrap() + vs) =~= es + vs);
    }
}

/// Appending whole records of the header's size to a well-formed shard file
/// keeps it well formed and extends its contents in order.
pub proof fn lemma_parse_shard_append(file: Seq<u8>, vs: Seq<EmbeddingView>, rs: u32)
    requires
        rs > 0,
        forall|i: int| 0 <= i < vs.len() ==> enc_record(#[trigger] vs[i]).len() == rs,
        parse_shard(file) is Some,
        file.len() > 0 ==> u32_of_le(file.subrange(0, 4)) == rs,
    ensures
        parse_shard(shard_append(file, vs, rs)) == Some(parse_shard(file).unwrap() + vs),
{
    let encs = vs.map_values(|e: EmbeddingView| enc_record(e));
    lemma_concat_bytes_len(encs, rs as nat);
    let body = concat_bytes(encs);
    assert(body.len() == vs.len() * rs);
    lemma_mod_multiples_basic(vs.len() as int, rs as int);
    let new = shard_append(file, vs, rs);
    if file.len() == 0 {
        lemma_u32_le_roundtrip(rs);
        assert(new =~= u32_le(rs) + body);
        assert(new.len() == 4 + body.len());
        assert(new.subrange(0, 4) =~= u32_le(rs));
        assert(new.skip(4) =~= Seq::<u8>::empty() + body);
        lemma_dec_records_concat(Seq::<u8>::empty(), vs, rs as nat, Seq::<EmbeddingView>::empty());
        if vs.len() == 0 {
            assert(new.len() == 4);
            assert((new.len() - 4) % rs as int == 0) by {
                lemma_small_mod(0, rs as nat);
            }
            assert(parse_shard(new) == Some(Seq::<EmbeddingView>::empty() + vs));
        } else {
            assert(new.len() > 4);
            assert((new.len() - 4) % rs as int == 0);
            assert(parse_shard(new) == Some(Seq::<EmbeddingView>::empty() + vs));
        }
        assert(Seq::<EmbeddingView>::empty() + vs =~= parse_shard(file).unwrap() + vs);
    } else {
        let es = parse_shard(file).unwrap();
        assert(file.len() >= 4);
        assert((file.len() - 4) % rs as int == 0);
        assert(dec_records(chunks_of(file.skip(4), rs as nat)) == Some(es));
        lemma_dec_records_concat(file.skip(4), vs, rs as nat, es);
        assert(new =~= file + body);
        assert(new.subrange(0, 4) =~= file.subrange(0, 4));
        assert(new.skip(4) =~= file.skip(4) + body);
        assert((new.len() - 4) % rs as int == 0) by {
            assert(new.len() - 4 == (file.len() - 4) + vs.len() * rs as int);
            vstd::arithmetic::div_mod::lemma_add_mod_noop(
                file.len() - 4,
                vs.len() * rs as int,
                rs as int,
            );
            lemma_small_mod(0, rs as nat);
        }
        assert(parse_shard(new) == Some(es + vs));
    }
}

impl Embedding {
    /// The serialized record: identifier bytes, then the packed vector.
    pub fn serialize_embedding(&self) -> (r: Vec<u8>)
        ensures
            r@ == enc_record(self@),
    {
        let mut out: Vec<u8> = Vec::new();
        write_u64_le(self.id.hi, &mut out);
        write_u64_le(self.id.lo, &mut out);
        let mut packed = self.vector.to_bytes();
        out.append(&mut packed);
        proof {
            assert(out@ =~= enc_record(self@));
        }
        out
    }

    /// Decodes one serialized record; bytes that are not a well-formed
    /// record are corruption.
    pub fn deserialize_embedding(b: &Vec<u8>) -> (r: Result<Embedding, DbError>)
        ensures
            match dec_record(b@) {
                Some(v) => r matches Ok(e) && e@ == v,
                None => r === Err(DbError::Corruption),
            },
    {
        let n = b.len();
        if n < 32 {
            return Err(DbError::Corruption);
        }
        let hi = read_u64_le(b, 0);
        let lo = read_u64_le(b, 8);
        let rest = vstd::slice::slice_to_vec(vstd::slice::slice_subrange(b.as_slice(), 16, n));
        let vector = PackedVector::from_bytes(&rest)?;
        proof {
            assert(rest@ =~= b@.subrange(16, b@.len() as int));
            assert(b@.subrange(0, 8) =~= b@.subrange(0, 8));
        }
        Ok(Embedding { id: Uuid { hi, lo }, vector })
    }
}

/// Serializes a batch of records and checks that they share one size, which
/// becomes the shard's record size; batches that are empty, mix sizes, or
/// exceed the header's range are refused.
pub open spec fn batch_ok(vs: Seq<EmbeddingView>) -> bool {
    &&& vs.len() > 0
    &&& forall|i: int|
        0 <= i < vs.len() ==> enc_record(#[trigger] vs[i]).len() == enc_record(vs[0]).len()
    &&& enc_record(vs[0]).len() <= u32::MAX
}

/// Serializes every record of a batch, returning the common record size and
/// the records, concatenated in order. A batch whose records would not share
/// one record size (that is, whose vectors differ in dimensionality), an
/// empty batch, or a record too large for the header is refused as
/// [`DbError::RecordSizeMismatch`].
pub fn serialize_records(embs: &Vec<Embedding>) -> (r: Result<(u32, Vec<u8>), DbError>)
    ensures
        r is Ok <==> batch_ok(views_of(embs@)),
        r matches Ok((rs, bytes)) ==> rs as nat == enc_record(views_of(embs@)[0]).len() && bytes@
            == concat_bytes(views_of(embs@).map_values(|e: EmbeddingView| enc_record(e))),
        r is Err ==> r === Err(DbError::RecordSizeMismatch),
{
    let n = embs.len();
    if n == 0 {
        return Err(DbError::RecordSizeMismatch);
    }
    let mut out: Vec<u8> = Vec::new();
    let mut rs: usize = 0;
    let ghost vs = views_of(embs@);
    let ghost encs = vs.map_values(|e: EmbeddingView| enc_record(e));
    for i in 0..n
        invariant
            n == embs@.len(),
            vs == views_of(embs@),
            encs == vs.map_values(|e: EmbeddingView| enc_record(e)),
            i > 0 ==> rs as nat == enc_record(vs[0]).len() && rs <= u32::MAX,
            forall|j: int| 0 <= j < i ==> enc_record(#[trigger] vs[j]).len() == rs as nat,
            out@ == concat_bytes(encs.subrange(0, i as int)),
    {
        let mut rec = embs[i].serialize_embedding();
        proof {
            assert(vs[i as int] == embs@[i as int]@);
        }
        if i == 0 {
            if rec.len() > u32::MAX as usize {
                return Err(DbError::RecordSizeMismatch);
            }
            rs = rec.len();
        } else {
            if rec.len() != rs {
                return Err(DbError::RecordSizeMismatch);
            }
        }
        proof {
            assert(encs[i as int] == enc_record(vs[i as int]));
            lemma_concat_bytes_push(encs.subrange(0, i as int), encs[i as int]);
            assert(encs.subrange(0, i as int).push(encs[i as int]) =~= encs.subrange(
                0,
                i as int + 1,
            ));
        }
        out.append(&mut rec);
    }
    proof {
        assert(encs.subrange(0, n as int) =~= encs);
    }
    Ok((rs as u32, out))
}

/// Parses a whole shard file into its embeddings. An empty file holds none;
/// any malformed file is corruption.
#[verifier::rlimit(60)]
pub fn parse_shard_file(file: &Vec<u8>) -> (r: Result<Vec<Embedding>, DbError>)
    ensures
        match parse_shard(file@) {
            Some(es) => r matches Ok(v) && views_of(v@) == es,
            None => r === Err(DbError::Corruption),
        },
{
    let n = file.len();
    if n == 0 {
        let out: Vec<Embedding> = Vec::new();
        proof {
            assert(views_of(out@) =~= parse_shard(file@).unwrap());
        }
        return Ok(out);
    }
    if n < 4 {
        return Err(DbError::Corruption);
    }
    let rs32 = read_u32_le(file, 0);
    if rs32 == 0 {
        return Err(DbError::Corruption);
    }
    let rs = rs32 as usize;
    if (n - 4) % rs != 0 {
        return Err(DbError::Corruption);
    }
    let ghost body = file@.skip(4);
    let ghost full = dec_records(chunks_of(body, rs as nat));
    proof {
        assert(parse_shard(file@) == full);
    }
    let mut out: Vec<Embedding> = Vec::new();
    let mut pos: usize = 4;
    while pos < n
        invariant
            parse_shard(file@) == full,
            4 <= pos <= n,
            n == file@.len(),
            rs == rs32 as nat,
            rs > 0,
            body == file@.skip(4),
            full == dec_records(chunks_of(body, rs as nat)),
            (n - pos) % rs as int == 0,
            full == match dec_records(chunks_of(file@.skip(pos as int), rs as nat)) {
                Some(rest) => Some(views_of(out@) + rest),
                None => None::<Seq<EmbeddingView>>,
            },
        decreases n - pos,
    {
        proof {
            if n - pos < rs {
                lemma_small_mod((n - pos) as nat, rs as nat);
            }
        }
        let rec_bytes = vstd::slice::slice_to_vec(
            vstd::slice::slice_subrange(file.as_slice(), pos, pos + rs),
        );
        let ghost rem = file@.skip(pos as int);
        proof {
            assert(rem.len() >= rs);
            assert(chunks_of(rem, rs as nat) == seq![rem.subrange(0, rs as int)] + chunks_of(
                rem.skip(rs as int),
                rs as nat,
            ));
            assert(rec_bytes@ =~= rem.subrange(0, rs as int));
            assert(chunks_of(rem, rs as nat)[0] == rem.subrange(0, rs as int));
            assert(chunks_of(rem, rs as nat).drop_first() =~= chunks_of(
                rem.skip(rs as int),
                rs as nat,
            ));
            assert(rem.skip(rs as int) =~= file@.skip(pos as int + rs as int));
        }
        match Embedding::deserialize_embedding(&rec_bytes) {
            Ok(e) => {
                let ghost out0 = out@;
                out.push(e);
                pos = pos + rs;
                proof {
                    lemma_mod_sub_multiples_vanish((n - pos + rs) as int, rs as int);
                    assert(views_of(out@) =~= views_of(out0).push(e@));
                    if dec_records(chunks_of(file@.skip(pos as int), rs as nat)) is Some {
                        let rest = dec_records(
                            chunks_of(file@.skip(pos as int), rs as nat),
                        ).unwrap();
                        assert(views_of(out0) + (seq![e@] + rest) =~= views_of(out@) + rest);
                    }
                }
            },
            Err(_) => {
                proof {
                    assert(dec_records(chunks_of(rem, rs as nat)) is None);
                    assert(full is None);
                }
                return Err(DbError::Corruption);
            },
        }
    }
    proof {
        assert(file@.skip(pos as int).len() == 0);
        assert(chunks_of(file@.skip(pos as int), rs as nat) =~= Seq::<Seq<u8>>::empty());
        assert(full == Some(views_of(out@) + Seq::<EmbeddingView>::empty()));
        assert(views_of(out@) + Seq::<EmbeddingView>::empty() =~= views_of(out@));
        assert(parse_shard(file@) == Some(views_of(out@)));
    }
    Ok(out)
}

} // verus!
