//! The content file: the documents themselves, keyed by record identifier.
//!
//! The file holds an entry count followed by one entry per document: the
//! identifier's sixteen bytes, the byte length of the text, and the UTF-8
//! text. Entries are read back to front, so a later entry for an identifier
//! supersedes an earlier one and adding an entry is a plain append.
use vstd::prelude::*;

use vstd::utf8::{decode_utf8, encode_utf8, encode_utf8_decode_utf8, encode_utf8_valid_utf8,
    valid_utf8};

use crate::DbError;
use crate::bytes::{lemma_u64_le_roundtrip, read_u64_le, u64_le, u64_of_le, write_u64_le};
use crate::bytes_to_string;
use crate::shard::Uuid;

verus! {

/// The mathematical value of one entry: identifier and text.
pub type ContentEntryView = (Uuid, Seq<char>);

/// The entries' views, in file order.
pub open spec fn content_views(s: Seq<(Uuid, String)>) -> Seq<ContentEntryView> {
    s.map_values(|p: (Uuid, String)| (p.0, p.1@))
}

/// The identifier-to-text map the entries describe; a later entry wins.
pub open spec fn content_map(s: Seq<ContentEntryView>) -> Map<Uuid, Seq<char>>
    decreases s.len(),
{
    if s.len() == 0 {
        Map::empty()
    } else {
        content_map(s.drop_last()).insert(s.last().0, s.last().1)
    }
}

proof fn lemma_content_map_found(s: Seq<ContentEntryView>, j: int)
    requires
        0 <= j < s.len(),
        forall|x: int| j < x < s.len() ==> (#[trigger] s[x]).0 != s[j].0,
    ensures
        content_map(s).contains_key(s[j].0),
        content_map(s)[s[j].0] == s[j].1,
    decreases s.len(),
{
    if j < s.len() - 1 {
        lemma_content_map_found(s.drop_last(), j);
        assert(s.drop_last()[j] == s[j]);
        assert(s.last() == s[s.len() - 1]);
    }
}

proof fn lemma_content_map_absent(s: Seq<ContentEntryView>, id: Uuid)
    requires
        forall|x: int| 0 <= x < s.len() ==> (#[trigger] s[x]).0 != id,
    ensures
        !content_map(s).contains_key(id),
    decreases s.len(),
{
    if s.len() > 0 {
        lemma_content_map_absent(s.drop_last(), id);
    }
}

/// The serialized bytes of one entry.
pub open spec fn enc_entry(p: ContentEntryView) -> Seq<u8> {
    u64_le(p.0.hi) + u64_le(p.0.lo) + u64_le(encode_utf8(p.1).len() as u64) + encode_utf8(p.1)
}

/// The serialized bytes of the entries, in order.
pub open spec fn enc_entries(s: Seq<ContentEntryView>) -> Seq<u8>
    decreases s.len(),
{
    if s.len() == 0 {
        Seq::empty()
    } else {
        enc_entry(s[0]) + enc_entries(s.drop_first())
    }
}

/// The serialized content file: the entry count, then the entries. The
/// empty file stands for no entries.
pub open spec fn enc_content(s: Seq<ContentEntryView>) -> Seq<u8> {
    u64_le(s.len() as u64) + enc_entries(s)
}

/// Decodes `cnt` entries starting at `pos`, giving the entries and the
/// position after them.
pub open spec fn dec_entries(b: Seq<u8>, pos: int, cnt: nat) -> Option<(Seq<ContentEntryView>, int)>
    decreases cnt,
{
    if cnt == 0 {
        Some((Seq::empty(), pos))
    } else if pos + 24 <= b.len() {
        let hi = u64_of_le(b.subrange(pos, pos + 8));
        let lo = u64_of_le(b.subrange(pos + 8, pos + 16));
        let l = u64_of_le(b.subrange(pos + 16, pos + 24)) as int;
        if pos + 24 + l <= b.len() && valid_utf8(b.subrange(pos + 24, pos + 24 + l)) {
            let t = decode_utf8(b.subrange(pos + 24, pos + 24 + l));
            match dec_entries(b, pos + 24 + l, (cnt - 1) as nat) {
                Some((rest, end)) => Some((seq![(Uuid { hi, lo }, t)] + rest, end)),
                None => None,
            }
        } else {
            None
        }
    } else {
        None
    }
}

/// The entries stored in a content file, when the file is well formed; the
/// empty file holds none.
pub open spec fn parse_content(b: Seq<u8>) -> Option<Seq<ContentEntryView>> {
    if b.len() == 0 {
        Some(Seq::empty())
    } else if b.len() >= 8 {
        match dec_entries(b, 8, u64_of_le(b.subrange(0, 8)) as nat) {
            Some((s, end)) => if end == b.len() {
                Some(s)
            } else {
                None
            },
            None => None,
        }
    } else {
        None
    }
}

proof fn lemma_dec_entries_enc(b: Seq<u8>, pos: int, s: Seq<ContentEntryView>)
    requires
        0 <= pos,
        pos + enc_entries(s).len() <= b.len(),
        b.subrange(pos, pos + enc_entries(s).len()) == enc_entries(s),
        forall|x: int| 0 <= x < s.len() ==> encode_utf8((#[trigger] s[x]).1).len() <= u64::MAX,
    ensures
        dec_entries(b, pos, s.len()) == Some((s, pos + enc_entries(s).len())),
    decreases s.len(),
{
    if s.len() == 0 {
        assert(Seq::<ContentEntryView>::empty() =~= s);
    } else {
        let e = enc_entry(s[0]);
        let whole = enc_entries(s);
        assert(whole == e + enc_entries(s.drop_first()));
        let p = s[0];
        lemma_u64_le_roundtrip(p.0.hi);
        lemma_u64_le_roundtrip(p.0.lo);
        lemma_u64_le_roundtrip(encode_utf8(p.1).len() as u64);
        let l = encode_utf8(p.1).len() as int;
        assert(e.len() == 24 + l);
        assert forall|x: int| 0 <= x < whole.len() implies b[pos + x] == whole[x] by {
            assert(b.subrange(pos, pos + whole.len() as int)[x] == b[pos + x]);
        }
        assert(b.subrange(pos, pos + e.len() as int) =~= e);
        assert(e.subrange(0, 8) =~= u64_le(p.0.hi));
        assert(e.subrange(8, 16) =~= u64_le(p.0.lo));
        assert(e.subrange(16, 24) =~= u64_le(l as u64));
        assert(e.subrange(24, 24 + l) =~= encode_utf8(p.1));
        assert(b.subrange(pos, pos + 8) =~= e.subrange(0, 8));
        assert(b.subrange(pos + 8, pos + 16) =~= e.subrange(8, 16));
        assert(b.subrange(pos + 16, pos + 24) =~= e.subrange(16, 24));
        assert(b.subrange(pos + 24, pos + 24 + l) =~= e.subrange(24, 24 + l));
        encode_utf8_valid_utf8(p.1);
        encode_utf8_decode_utf8(p.1);
        let rest = enc_entries(s.drop_first());
        assert forall|x: int| 0 <= x < rest.len() implies b[pos + e.len() + x] == rest[x] by {
            assert(b[pos + (e.len() + x)] == whole[e.len() + x]);
            assert(whole[e.len() + x] == rest[x]);
        }
        assert forall|x: int| 0 <= x < rest.len() implies b.subrange(
            pos + e.len() as int,
            pos + e.len() + rest.len() as int,
        )[x] == rest[x] by {
            assert(b.subrange(pos + e.len() as int, pos + e.len() + rest.len() as int)[x] == b[pos
                + e.len() + x]);
        }
        assert(b.subrange(pos + e.len() as int, pos + e.len() + rest.len() as int) =~= rest);
        lemma_dec_entries_enc(b, pos + e.len() as int, s.drop_first());
        assert(u64_of_le(b.subrange(pos, pos + 8)) == p.0.hi);
        assert(u64_of_le(b.subrange(pos + 8, pos + 16)) == p.0.lo);
        assert(u64_of_le(b.subrange(pos + 16, pos + 24)) as int == l);
        assert(valid_utf8(b.subrange(pos + 24, pos + 24 + l)));
        assert(decode_utf8(b.subrange(pos + 24, pos + 24 + l)) == p.1);
        assert(dec_entries(b, pos + 24 + l, (s.len() - 1) as nat) == Some(
            (s.drop_first(), pos + enc_entries(s).len()),
        ));
        assert(dec_entries(b, pos, s.len()).unwrap().0 =~= s);
    }
}

/// Serialization of the entries decodes back to the entries.
pub proof fn lemma_content_roundtrip(s: Seq<ContentEntryView>)
    requires
        s.len() <= u64::MAX,
        forall|x: int| 0 <= x < s.len() ==> encode_utf8((#[trigger] s[x]).1).len() <= u64::MAX,
    ensures
        parse_content(enc_content(s)) == Some(s),
{
    let b = enc_content(s);
    lemma_u64_le_roundtrip(s.len() as u64);
    assert(b.subrange(0, 8) =~= u64_le(s.len() as u64));
    assert(b.subrange(8, 8 + enc_entries(s).len() as int) =~= enc_entries(s));
    lemma_dec_entries_enc(b, 8, s);
    if s.len() == 0 {
        assert(b.len() == 8);
    }
}

/// The documents, keyed by identifier, as read from and written to the
/// content file.
pub struct ContentMap {
    pub entries: Vec<(Uuid, String)>,
}

impl View for ContentMap {
    type V = Seq<ContentEntryView>;

    open spec fn view(&self) -> Seq<ContentEntryView> {
        content_views(self.entries@)
    }
}

impl ContentMap {
    /// The identifier-to-text map these entries describe.
    pub open spec fn map_view(&self) -> Map<Uuid, Seq<char>> {
        content_map(self@)
    }

    /// A map with no entries.
    pub fn new() -> (r: ContentMap)
        ensures
            r@ == Seq::<ContentEntryView>::empty(),
    {
        let r = ContentMap { entries: Vec::new() };
        proof {
            assert(r@ =~= Seq::<ContentEntryView>::empty());
        }
        r
    }

    /// Adds an entry; a later entry for the same identifier supersedes the
    /// earlier ones.
    pub fn insert(&mut self, id: Uuid, text: String)
        ensures
            final(self)@ == old(self)@.push((id, text@)),
            final(self).map_view() == old(self).map_view().insert(id, text@),
    {
        let ghost v0 = self@;
        self.entries.push((id, text));
        proof {
            assert(self@ =~= v0.push((id, text@)));
            assert(self@.drop_last() =~= v0);
        }
    }

    /// The text stored under the identifier, when there is one.
    pub fn get(&self, id: Uuid) -> (r: Option<String>)
        ensures
            match r {
                Some(s) => self.map_view().contains_key(id) && s@ == self.map_view()[id],
                None => !self.map_view().contains_key(id),
            },
    {
        let n = self.entries.len();
        let mut i = n;
        loop
            invariant
                i <= n,
                n == self.entries@.len(),
                forall|x: int| i <= x < n ==> (#[trigger] self@[x]).0 != id,
            decreases i,
        {
            if i == 0 {
                proof {
                    lemma_content_map_absent(self@, id);
                }
                return None;
            }
            i = i - 1;
            if self.entries[i].0 == id {
                proof {
                    lemma_content_map_found(self@, i as int);
                }
                return Some(self.entries[i].1.clone());
            }
        }
    }

    /// The serialized content file.
    pub fn to_bytes(&self) -> (r: Vec<u8>)
        ensures
            r@ == enc_content(self@),
            self@.len() <= u64::MAX,
            forall|x: int| 0 <= x < self@.len() ==> encode_utf8((#[trigger] self@[x]).1).len()
                <= u64::MAX,
    {
        let n = self.entries.len();
        let mut out: Vec<u8> = Vec::new();
        write_u64_le(n as u64, &mut out);
        for i in 0..n
            invariant
                n == self.entries@.len(),
                out@ == u64_le(n as u64) + enc_entries(self@.subrange(0, i as int)),
                forall|x: int| 0 <= x < i ==> encode_utf8((#[trigger] self@[x]).1).len()
                    <= u64::MAX,
        {
            let ghost pre = self@.subrange(0, i as int);
            write_u64_le(self.entries[i].0.hi, &mut out);
            write_u64_le(self.entries[i].0.lo, &mut out);
            let tb = self.entries[i].1.as_str().as_bytes_vec();
            write_u64_le(tb.len() as u64, &mut out);
            out.extend_from_slice(tb.as_slice());
            proof {
                assert(tb@ == encode_utf8(self@[i as int].1));
                lemma_enc_entries_push(pre, self@[i as int]);
                assert(pre.push(self@[i as int]) =~= self@.subrange(0, i as int + 1));
                assert(out@ =~= u64_le(n as u64) + enc_entries(self@.subrange(0, i as int + 1)));
            }
        }
        proof {
            assert(self@.subrange(0, n as int) =~= self@);
        }
        out
    }

    /// Decodes a content file; the empty file is the empty map, and any
    /// other malformed file is corruption.
    pub fn from_bytes(b: &Vec<u8>) -> (r: Result<ContentMap, DbError>)
        ensures
            match parse_content(b@) {
                Some(s) => r matches Ok(m) && m@ == s,
                None => r === Err(DbError::Corruption),
            },
    {
        let n = b.len();
        if n == 0 {
            let m = ContentMap::new();
            proof {
                assert(m@ =~= parse_content(b@).unwrap());
            }
            return Ok(m);
        }
        if n < 8 {
            return Err(DbError::Corruption);
        }
        let cnt = read_u64_le(b, 0);
        let ghost total = dec_entries(b@, 8, cnt as nat);
        proof {
            assert(parse_content(b@) == (match total {
                Some((s, end)) => if end == b@.len() as int {
                    Some(s)
                } else {
                    None::<Seq<ContentEntryView>>
                },
                None => None::<Seq<ContentEntryView>>,
            }));
        }
        let mut entries: Vec<(Uuid, String)> = Vec::new();
        let mut pos: usize = 8;
        let mut remaining = cnt;
        while remaining > 0
            invariant
                8 <= pos <= n,
                n == b@.len(),
                remaining <= cnt,
                parse_content(b@) == (match total {
                    Some((s, end)) => if end == b@.len() as int {
                        Some(s)
                    } else {
                        None::<Seq<ContentEntryView>>
                    },
                    None => None::<Seq<ContentEntryView>>,
                }),
                total == match dec_entries(b@, pos as int, remaining as nat) {
                    Some((rest, end)) => Some(
                        (content_views(entries@) + rest, end),
                    ),
                    None => None::<(Seq<ContentEntryView>, int)>,
                },
            decreases remaining,
        {
            if n - pos < 24 {
                proof {
                    assert(dec_entries(b@, pos as int, remaining as nat) is None);
                }
                return Err(DbError::Corruption);
            }
            let hi = read_u64_le(b, pos);
            let lo = read_u64_le(b, pos + 8);
            let l64 = read_u64_le(b, pos + 16);
            if l64 > (n - pos - 24) as u64 {
                proof {
                    assert(dec_entries(b@, pos as int, remaining as nat) is None);
                }
                return Err(DbError::Corruption);
            }
            let l = l64 as usize;
            let tb = vstd::slice::slice_to_vec(
                vstd::slice::slice_subrange(b.as_slice(), pos + 24, pos + 24 + l),
            );
            let ghost tbv = tb@;
            match bytes_to_string(tb) {
                Some(text) => {
                    let ghost v0 = content_views(entries@);
                    proof {
                        encode_utf8_decode_utf8(text@);
                        encode_utf8_valid_utf8(text@);
                        assert(tbv =~= b@.subrange(pos as int + 24, pos as int + 24 + l as int));
                        assert(valid_utf8(b@.subrange(pos as int + 24, pos as int + 24 + l as int)));
                        assert(decode_utf8(b@.subrange(pos as int + 24, pos as int + 24 + l as int))
                            == text@);
                    }
                    entries.push((Uuid { hi, lo }, text));
                    proof {
                        assert(content_views(entries@) =~= v0.push((Uuid { hi, lo }, text@)));
                        if dec_entries(b@, pos as int + 24 + l as int, (remaining - 1) as nat)
                            is Some {
                            let (rest, end) = dec_entries(
                                b@,
                                pos as int + 24 + l as int,
                                (remaining - 1) as nat,
                            ).unwrap();
                            assert(v0 + (seq![(Uuid { hi, lo }, text@)] + rest)
                                =~= content_views(entries@) + rest);
                        }
                    }
                    pos = pos + 24 + l;
                    remaining = remaining - 1;
                },
                None => {
                    proof {
                        assert(tbv =~= b@.subrange(pos as int + 24, pos as int + 24 + l as int));
                        assert(dec_entries(b@, pos as int, remaining as nat) is None);
                    }
                    return Err(DbError::Corruption);
                },
            }
        }
        if pos != n {
            proof {
                assert(dec_entries(b@, pos as int, 0) == Some(
                    (Seq::<ContentEntryView>::empty(), pos as int),
                ));
            }
            return Err(DbError::Corruption);
        }
        let m = ContentMap { entries };
        proof {
            assert(content_views(m.entries@) + Seq::<ContentEntryView>::empty()
                =~= content_views(m.entries@));
            assert(parse_content(b@) == Some(m@));
        }
        Ok(m)
    }
}

proof fn lemma_enc_entries_push(s: Seq<ContentEntryView>, x: ContentEntryView)
    ensures
        enc_entries(s.push(x)) == enc_entries(s) + enc_entry(x),
    decreases s.len(),
{
    if s.len() == 0 {
        assert(s.push(x)[0] == x);
        assert(s.push(x).drop_first() =~= Seq::<ContentEntryView>::empty());
        assert(enc_entries(s.push(x).drop_first()) == Seq::<u8>::empty());
        assert(enc_entries(s.push(x)) =~= enc_entries(s) + enc_entry(x));
    } else {
        assert(s.push(x).drop_first() =~= s.drop_first().push(x));
        lemma_enc_entries_push(s.drop_first(), x);
        assert(s.push(x)[0] == s[0]);
        assert(enc_entries(s.push(x)) == enc_entry(s.push(x)[0]) + enc_entries(s.drop_first().push(x)));
        assert(enc_entries(s.push(x)) =~= enc_entries(s) + enc_entry(x));
    }
}

} // verus!
