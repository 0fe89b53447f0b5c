//! The engine: insert, search support, clear, and the projection hooks.
//!
//! The engine owns a directory and keeps all database state in it; every
//! operation reads what it needs from the files and writes whole files
//! back. The contracts describe each operation's effect on the directory
//! byte for byte, through the codecs of the other modules.
use vstd::prelude::*;

use crate::DbError;
use crate::bytes::u32_of_le;
use crate::content::{ContentEntryView, ContentMap, enc_content, parse_content};
use crate::filesystem::{
    CreateWritableOptions, DirectoryHandle, FileHandle, GetFileHandleOptions,
};
use crate::index::{Index, enc_index, index_wf, parse_index, shard_filename_of, tagsets_fit};
use crate::packed_vector::PackedVector;
use crate::ranking::{NearestNeighborsResult, ScoredEmbedding};
use crate::shard::{Embedding, EmbeddingView, Uuid, batch_ok, parse_shard, serialize_records,
    shard_append, views_of};
use crate::tags::{TagSet, lemma_canonical_unique, tag_views};

verus! {

/// A shard that grows past this many bytes arms the dimensionality
/// reduction, once per database lifetime.
pub const AUTO_FIT_THRESHOLD_BYTES: usize = 1000000;

/// The index file's name.
pub open spec fn index_filename() -> Seq<char> {
    "index.bin"@
}

/// The content file's name.
pub open spec fn content_filename() -> Seq<char> {
    "content.bin"@
}

/// The projection file's name.
pub open spec fn eigen_filename() -> Seq<char> {
    "eigen.bin"@
}

/// The tag-sets the directory knows: those of the index file, none when the
/// file is absent, `None` when it does not decode.
pub open spec fn stored_index_sets(files: Map<Seq<char>, Seq<u8>>) -> Option<
    Seq<Seq<Seq<char>>>,
> {
    if files.contains_key(index_filename()) {
        parse_index(files[index_filename()])
    } else {
        Some(Seq::empty())
    }
}

/// The content entries the directory holds: those of the content file, none
/// when the file is absent, `None` when it does not decode.
pub open spec fn stored_content(files: Map<Seq<char>, Seq<u8>>) -> Option<Seq<ContentEntryView>> {
    if files.contains_key(content_filename()) {
        parse_content(files[content_filename()])
    } else {
        Some(Seq::empty())
    }
}

/// The record views an insert writes: the fresh identifiers beside the
/// supplied packed vectors.
pub open spec fn record_views(ids: Seq<Uuid>, items: Seq<(String, PackedVector)>) -> Seq<
    EmbeddingView,
> {
    Seq::new(ids.len(), |i: int| EmbeddingView { id: ids[i], vector: items[i].1@ })
}

/// Whether a batch of items can share one shard: at least one item, every
/// vector of the same dimensionality, and a record small enough for the
/// shard header.
pub open spec fn items_batch_ok(items: Seq<(String, PackedVector)>) -> bool {
    &&& items.len() > 0
    &&& forall|i: int|
        0 <= i < items.len() ==> (#[trigger] items[i]).1@.data.len() == items[0].1@.data.len()
    &&& items[0].1@.data.len() + 32 <= u32::MAX
}

/// The directory after an insert of `items` under the canonical tag-set
/// `canon`, with the fresh identifiers `ids`: the index learns the set if
/// it is new, the records are appended to the set's shard, and the content
/// entries are appended to the content file.
pub open spec fn insert_disk_effect(
    f0: Map<Seq<char>, Seq<u8>>,
    canon: Seq<Seq<char>>,
    ids: Seq<Uuid>,
    items: Seq<(String, PackedVector)>,
    rs: u32,
) -> Map<Seq<char>, Seq<u8>>
    recommends
        stored_index_sets(f0) is Some,
{
    let tss0 = stored_index_sets(f0).unwrap();
    let known = exists|i: int| 0 <= i < tss0.len() && (#[trigger] tss0[i]).to_set() == canon.to_set();
    let f2 = if known {
        f0
    } else {
        f0.insert(index_filename(), enc_index(tss0.push(canon)))
    };
    let name = shard_filename_of(canon);
    let old_shard = if f2.contains_key(name) {
        f2[name]
    } else {
        Seq::empty()
    };
    let f4 = f2.insert(name, shard_append(old_shard, record_views(ids, items), rs));
    let entries1 = stored_content(f4).unwrap() + Seq::new(
        ids.len(),
        |i: int| (ids[i], items[i].0@),
    );
    f4.insert(content_filename(), enc_content(entries1))
}

/// What an insert reports back: the fresh identifier of each item, the
/// canonical tag-set the batch went to, and whether the written shard has
/// crossed the auto-fit threshold in a database with no projection yet.
pub struct InsertOutcome {
    pub ids: Vec<Uuid>,
    pub tags: TagSet,
    pub fit_due: bool,
}

/// The vector database over a storage backend.
pub struct Victor<D: DirectoryHandle> {
    root: D,
}

impl<D: DirectoryHandle> Victor<D> {
    /// The directory's abstract state.
    pub closed spec fn disk(&self) -> Map<Seq<char>, Seq<u8>> {
        self.root.files()
    }

    /// A database over the given directory.
    pub fn new(root: D) -> (r: Self)
        ensures
            r.disk() == root.files(),
    {
        Victor { root }
    }

    /// Opens and decodes the index file, creating an empty one when it is
    /// absent. A file that does not decode to canonical, distinct tag-sets
    /// is corruption.
    fn load_index(&mut self) -> (r: Result<Index, DbError>)
        ensures
            r matches Ok(ix) ==> {
                &&& stored_index_sets(old(self).disk()) == Some(ix.seq_view())
                &&& ix.wf()
                &&& final(self).disk() == if old(self).disk().contains_key(index_filename()) {
                    old(self).disk()
                } else {
                    old(self).disk().insert(index_filename(), Seq::<u8>::empty())
                }
            },
            r is Err ==> final(self).disk() == old(self).disk() || final(self).disk() == old(
                self,
            ).disk().insert(index_filename(), Seq::<u8>::empty()),
            r is Err ==> r === Err(DbError::NotFound) || r === Err(DbError::Storage) || r === Err(
                DbError::Corruption,
            ),
    {
        let iname = index_name();
        let fh = self.root.get_file_handle_with_options(
            &iname,
            &GetFileHandleOptions { create: true },
        )?;
        let bytes = fh.read(&self.root)?;
        let r = Index::from_bytes(&bytes);
        proof {
            if !old(self).disk().contains_key(index_filename()) {
                assert(bytes@ =~= Seq::<u8>::empty());
            }
        }
        match r {
            Ok(ix) => {
                proof {
                    if !old(self).disk().contains_key(index_filename()) {
                        assert(parse_index(bytes@) == Some(Seq::<Seq<Seq<char>>>::empty()));
                    }
                }
                Ok(ix)
            },
            Err(e) => Err(e),
        }
    }
}

/// The canonical form of a set of tags, as a sequence.
pub open spec fn canon_seq_of(s: Set<Seq<char>>) -> Seq<Seq<char>> {
    choose|c: Seq<Seq<char>>| crate::tags::strictly_sorted(c) && c.to_set() == s
}

/// The record size check an append performs: the shard already holds a
/// header naming a different record size.
pub open spec fn shard_header_mismatch(
    f0: Map<Seq<char>, Seq<u8>>,
    canon: Seq<Seq<char>>,
    rs: u32,
) -> bool {
    let name = shard_filename_of(canon);
    &&& f0.contains_key(name)
    &&& f0[name].len() >= 4
    &&& u32_of_le(f0[name].subrange(0, 4)) != rs
}

impl<D: DirectoryHandle> Victor<D> {
    /// Inserts a batch of documents with their packed vectors under one
    /// tag-set. Each item gets a fresh identifier; its record goes to the
    /// tag-set's shard, its text to the content file, and the tag-set to
    /// the index when it is new there. The whole batch must share one
    /// record size — one vector dimensionality — and must match the
    /// record size already in the shard's header, else nothing is promised
    /// of the on-disk state beyond the error.
    #[verifier::rlimit(100)]
    #[verifier::spinoff_prover]
    pub fn add_embedding_many(
        &mut self,
        items: Vec<(String, PackedVector)>,
        tags: &Vec<String>,
    ) -> (r: Result<InsertOutcome, DbError>)
        ensures
            r matches Ok(out) ==> ({
                let f0 = old(self).disk();
                &&& out.tags.wf()
                &&& out.tags.set_view() == tag_views(tags@).to_set()
                &&& out.ids@.len() == items@.len()
                &&& items_batch_ok(items@)
                &&& stored_index_sets(f0) is Some
                &&& index_wf(stored_index_sets(f0).unwrap())
                &&& final(self).disk() == insert_disk_effect(
                    f0,
                    out.tags.seq_view(),
                    out.ids@,
                    items@,
                    (items@[0].1@.data.len() + 32) as u32,
                )
                &&& out.fit_due == (final(self).disk()[shard_filename_of(
                    out.tags.seq_view(),
                )].len() > AUTO_FIT_THRESHOLD_BYTES && !final(self).disk().contains_key(
                    eigen_filename(),
                ))
                &&& crate::index::tags_fit(out.tags.seq_view())
                &&& shard_filename_of(out.tags.seq_view()).len() == 68
                &&& ({
                    let name = shard_filename_of(out.tags.seq_view());
                    f0.contains_key(name) && f0[name].len() > 0 ==> u32_of_le(
                        f0[name].subrange(0, 4),
                    ) == (items@[0].1@.data.len() + 32) as u32
                })
            }),
            r === Err(DbError::RecordSizeMismatch) ==> !items_batch_ok(items@)
                || shard_header_mismatch(
                old(self).disk(),
                canon_seq_of(tag_views(tags@).to_set()),
                (items@[0].1@.data.len() + 32) as u32,
            ),
            r is Ok && db_wf(old(self).disk()) ==> db_wf(final(self).disk()),
    {
        let ghost f0 = self.disk();
        let ix = self.load_index()?;
        let ghost f1 = self.disk();
        let canon = TagSet::canonicalize(tags);
        proof {
            assert(crate::tags::strictly_sorted(canon.seq_view()) && canon.seq_view().to_set()
                == tag_views(tags@).to_set());
            lemma_canonical_unique(canon.seq_view(), canon_seq_of(tag_views(tags@).to_set()));
        }
        let known = ix.contains(&canon);
        if !known {
            let canon2 = TagSet::canonicalize(tags);
            proof {
                lemma_canonical_unique(canon.seq_view(), canon2.seq_view());
            }
            let mut ix2 = ix;
            ix2.files.push(canon2);
            let ibytes = ix2.to_bytes();
            proof {
                assert(ix2.seq_view() =~= stored_index_sets(f0).unwrap().push(canon.seq_view()));
            }
            let iname = index_name();
            let ifh = self.root.get_file_handle_with_options(
                &iname,
                &GetFileHandleOptions { create: true },
            )?;
            let mut w = ifh.create_writable_with_options(
                &self.root,
                &CreateWritableOptions { keep_existing_data: false },
            )?;
            w.write_at_cursor_pos(ibytes)?;
            proof {
                assert(w.buf() =~= enc_index(
                    stored_index_sets(f0).unwrap().push(canon.seq_view()),
                ));
            }
            w.close(&mut self.root)?;
        }
        let ghost f2 = self.disk();
        proof {
            let tss0 = stored_index_sets(f0).unwrap();
            if known {
                assert(tss0.len() > 0);
                assert(f0.contains_key(index_filename()));
                assert(f2 == f0);
            } else {
                assert(f2 =~= f0.insert(
                    index_filename(),
                    enc_index(tss0.push(canon.seq_view())),
                ));
            }
        }
        // assign identifiers and split the items
        let mut items = items;
        let ghost items0 = items@;
        let n = items.len();
        let mut ids: Vec<Uuid> = Vec::new();
        let mut embs: Vec<Embedding> = Vec::new();
        let mut texts: Vec<String> = Vec::new();
        for i in 0..n
            invariant
                n == items0.len(),
                items@ == items0.skip(i as int),
                ids@.len() == i,
                embs@.len() == i,
                texts@.len() == i,
                views_of(embs@) == record_views(ids@, items0),
                forall|j: int| 0 <= j < i ==> texts@[j] == items0[j].0,
        {
            let ghost e0 = embs@;
            let ghost ids0 = ids@;
            let pair = items.remove(0);
            proof {
                assert(items0.skip(i as int)[0] == items0[i as int]);
                assert(items0.skip(i as int).remove(0) =~= items0.skip(i as int + 1));
            }
            let id = Uuid::new_v4();
            ids.push(id);
            embs.push(Embedding { id, vector: pair.1 });
            texts.push(pair.0);
            proof {
                assert forall|j: int| 0 <= j < embs@.len() implies views_of(embs@)[j]
                    == record_views(ids@, items0)[j] by {
                    if j < i {
                        assert(views_of(e0)[j] == record_views(ids0, items0)[j]);
                        assert(embs@[j] == e0[j]);
                        assert(ids@[j] == ids0[j]);
                    } else {
                        assert(embs@[j] == Embedding { id, vector: pair.1 });
                        assert(ids@[j] == id);
                        assert(pair == items0[i as int]);
                    }
                }
                assert(views_of(embs@) =~= record_views(ids@, items0));
            }
        }
        let (rs, recbytes) = match serialize_records(&embs) {
            Ok(x) => x,
            Err(_) => {
                proof {
                    lemma_batch_items(views_of(embs@), ids@, items0);
                }
                return Err(DbError::RecordSizeMismatch);
            },
        };
        proof {
            lemma_batch_items(views_of(embs@), ids@, items0);
            assert(rs as nat == items0[0].1@.data.len() + 32);
        }
        let name = Index::filename_for_tags(&canon);
        let fh = self.root.get_file_handle_with_options(
            &name,
            &GetFileHandleOptions { create: true },
        )?;
        let ghost f3 = self.disk();
        let ghost old_shard = if f2.contains_key(name@) {
            f2[name@]
        } else {
            Seq::<u8>::empty()
        };
        proof {
            assert(f3[name@] == old_shard);
        }
        let size = fh.size(&self.root)?;
        let mut w = fh.create_writable_with_options(
            &self.root,
            &CreateWritableOptions { keep_existing_data: true },
        )?;
        w.seek(size)?;
        let mut payload: Vec<u8> = Vec::new();
        if size == 0 {
            crate::bytes::write_u32_le(rs, &mut payload);
            proof {
                reveal_strlit("index.bin");
                assert(name@ != index_filename());
                assert(f0.contains_key(name@) ==> old_shard == f0[name@]);
            }
        } else {
            if size < 4 {
                return Err(DbError::Corruption);
            }
            let whole = fh.read(&self.root)?;
            let rs_old = crate::bytes::read_u32_le(&whole, 0);
            proof {
                reveal_strlit("index.bin");
                assert(name@ != index_filename());
                assert(whole@ == old_shard);
                assert(f0.contains_key(name@) ==> old_shard == f0[name@]);
            }
            if rs_old != rs {
                proof {
                    reveal_strlit("index.bin");
                    assert(name@ != index_filename());
                    assert(f2[name@] == f0[name@] || !f0.contains_key(name@));
                    assert(shard_header_mismatch(
                        f0,
                        canon_seq_of(tag_views(tags@).to_set()),
                        rs,
                    ));
                }
                return Err(DbError::RecordSizeMismatch);
            }
        }
        let mut recbytes = recbytes;
        payload.append(&mut recbytes);
        w.write_at_cursor_pos(payload)?;
        proof {
            assert(w.buf() =~= old_shard + payload@);
            assert(w.buf() =~= shard_append(old_shard, record_views(ids@, items0), rs));
        }
        w.close(&mut self.root)?;
        let ghost f4 = self.disk();
        proof {
            assert(f4 =~= f2.insert(
                name@,
                shard_append(old_shard, record_views(ids@, items0), rs),
            ));
        }
        // merge the texts into the content file
        let cname = content_name();
        let cfh = self.root.get_file_handle_with_options(
            &cname,
            &GetFileHandleOptions { create: true },
        )?;
        let cbytes = cfh.read(&self.root)?;
        let mut cmap = ContentMap::from_bytes(&cbytes)?;
        proof {
            assert(stored_content(f4) == Some(cmap@));
        }
        let ghost entries0 = cmap@;
        let mut texts = texts;
        for i in 0..n
            invariant
                n == items0.len(),
                n == ids@.len(),
                texts@.len() == n - i,
                forall|j: int| 0 <= j < n - i ==> texts@[j] == items0[j + i].0,
                cmap@ == entries0 + Seq::new(
                    i as nat,
                    |j: int| (ids@[j], items0[j].0@),
                ),
        {
            let text = texts.remove(0);
            cmap.insert(ids[i], text);
            proof {
                assert(cmap@ =~= entries0 + Seq::new(
                    i as nat + 1,
                    |j: int| (ids@[j], items0[j].0@),
                ));
            }
        }
        let out_bytes = cmap.to_bytes();
        let mut w2 = cfh.create_writable_with_options(
            &self.root,
            &CreateWritableOptions { keep_existing_data: false },
        )?;
        w2.write_at_cursor_pos(out_bytes)?;
        proof {
            assert(w2.buf() =~= enc_content(cmap@));
        }
        w2.close(&mut self.root)?;
        let ghost f6 = self.disk();
        proof {
            assert(f6 =~= f4.insert(content_filename(), enc_content(cmap@)));
        }
        // arm the dimensionality reduction when the shard has outgrown the
        // threshold and no projection exists yet
        proof {
            reveal_strlit("content.bin");
            assert(name@ != content_filename());
            assert(f6[name@] == f4[name@]);
        }
        let size_after = fh.size(&self.root)?;
        let ename = eigen_name();
        let projected = match self.root.get_file_handle_with_options(
            &ename,
            &GetFileHandleOptions { create: false },
        ) {
            Ok(_) => true,
            Err(DbError::NotFound) => false,
            Err(e) => {
                return Err(e);
            },
        };
        let fit_due = !projected && size_after > AUTO_FIT_THRESHOLD_BYTES;
        proof {
            let tss0 = stored_index_sets(f0).unwrap();
            let known_s = exists|i: int|
                0 <= i < tss0.len() && (#[trigger] tss0[i]).to_set() == canon.seq_view().to_set();
            assert(known == known_s);
            let f2s = if known_s {
                f0
            } else {
                f0.insert(index_filename(), enc_index(tss0.push(canon.seq_view())))
            };
            assert(f2 == f2s);
            let names = shard_filename_of(canon.seq_view());
            assert(name@ == names);
            let old_shard_s = if f2s.contains_key(names) {
                f2s[names]
            } else {
                Seq::<u8>::empty()
            };
            assert(old_shard == old_shard_s);
            assert((items0[0].1@.data.len() + 32) as u32 == rs);
            let f4s = f2s.insert(
                names,
                shard_append(old_shard_s, record_views(ids@, items0), rs),
            );
            assert(f4 == f4s);
            let entries1 = stored_content(f4s).unwrap() + Seq::new(
                ids@.len(),
                |i: int| (ids@[i], items0[i].0@),
            );
            assert(cmap@ =~= entries1);
            assert(f6 == f4s.insert(content_filename(), enc_content(entries1)));
            assert(f6 == insert_disk_effect(
                f0,
                canon.seq_view(),
                ids@,
                items0,
                (items0[0].1@.data.len() + 32) as u32,
            ));
            assert(size_after as nat == f6[names].len());
            assert(crate::index::tags_fit(canon.seq_view()));
            assert(name@.len() == 68);
            assert(f0.contains_key(name@) && f0[name@].len() > 0 ==> u32_of_le(
                f0[name@].subrange(0, 4),
            ) == rs);
            assert(canon.wf());
            assert(canon.set_view() == tag_views(tags@).to_set());
            assert(ids@.len() == items0.len());
            assert(items_batch_ok(items0));
            assert(stored_index_sets(f0) is Some);
            assert(index_wf(stored_index_sets(f0).unwrap()));
            assert(self.disk() == f6);
            assert(projected == f6.contains_key(eigen_filename()));
            assert(fit_due == (f6[names].len() > AUTO_FIT_THRESHOLD_BYTES
                && !f6.contains_key(eigen_filename())));
            if db_wf(f0) {
                lemma_insert_preserves_wf(
                    f0,
                    f2,
                    f4,
                    f6,
                    tss0,
                    canon.seq_view(),
                    known,
                    record_views(ids@, items0),
                    rs,
                    old_shard,
                    cmap@,
                );
            }
        }
        Ok(InsertOutcome { ids, tags: canon, fit_due })
    }
}

/// The bytes of the shard a tag-set owns; a shard no file holds yet is
/// empty.
pub open spec fn shard_bytes_at(files: Map<Seq<char>, Seq<u8>>, t: Seq<Seq<char>>) -> Seq<u8> {
    if files.contains_key(shard_filename_of(t)) {
        files[shard_filename_of(t)]
    } else {
        Seq::empty()
    }
}

/// The records of every indexed tag-set that includes all the query tags,
/// in index order and shard order; `None` when a matching shard is
/// malformed.
pub open spec fn matching_records(
    files: Map<Seq<char>, Seq<u8>>,
    tss: Seq<Seq<Seq<char>>>,
    q: Set<Seq<char>>,
) -> Option<Seq<EmbeddingView>>
    decreases tss.len(),
{
    if tss.len() == 0 {
        Some(Seq::empty())
    } else {
        let head = if q.subset_of(tss[0].to_set()) {
            parse_shard(shard_bytes_at(files, tss[0]))
        } else {
            Some(Seq::empty())
        };
        match (head, matching_records(files, tss.drop_first(), q)) {
            (Some(h), Some(r)) => Some(h + r),
            _ => None,
        }
    }
}

proof fn lemma_matching_records_push(
    files: Map<Seq<char>, Seq<u8>>,
    tss: Seq<Seq<Seq<char>>>,
    q: Set<Seq<char>>,
    t: Seq<Seq<char>>,
)
    ensures
        matching_records(files, tss.push(t), q) == ({
            let head = if q.subset_of(t.to_set()) {
                parse_shard(shard_bytes_at(files, t))
            } else {
                Some(Seq::<EmbeddingView>::empty())
            };
            match (matching_records(files, tss, q), head) {
                (Some(a), Some(b)) => Some(a + b),
                _ => None,
            }
        }),
    decreases tss.len(),
{
    if tss.len() == 0 {
        assert(tss.push(t)[0] == t);
        assert(tss.push(t).drop_first() =~= Seq::<Seq<Seq<char>>>::empty());
        let headt = if q.subset_of(t.to_set()) {
            parse_shard(shard_bytes_at(files, t))
        } else {
            Some(Seq::<EmbeddingView>::empty())
        };
        assert(matching_records(files, tss, q) == Some(Seq::<EmbeddingView>::empty()));
        assert(matching_records(files, tss.push(t).drop_first(), q) == Some(
            Seq::<EmbeddingView>::empty(),
        ));
        if headt is Some {
            assert(headt.unwrap() + Seq::<EmbeddingView>::empty() =~= headt.unwrap());
            assert(Seq::<EmbeddingView>::empty() + headt.unwrap() =~= headt.unwrap());
        }
    } else {
        assert(tss.push(t)[0] == tss[0]);
        assert(tss.push(t).drop_first() =~= tss.drop_first().push(t));
        lemma_matching_records_push(files, tss.drop_first(), q, t);
        assert(matching_records(files, tss.push(t), q) == (match (
            if q.subset_of(tss[0].to_set()) {
                parse_shard(shard_bytes_at(files, tss[0]))
            } else {
                Some(Seq::<EmbeddingView>::empty())
            },
            matching_records(files, tss.drop_first().push(t), q),
        ) {
            (Some(h), Some(r)) => Some(h + r),
            _ => None,
        }));
        let head0 = if q.subset_of(tss[0].to_set()) {
            parse_shard(shard_bytes_at(files, tss[0]))
        } else {
            Some(Seq::<EmbeddingView>::empty())
        };
        let headt = if q.subset_of(t.to_set()) {
            parse_shard(shard_bytes_at(files, t))
        } else {
            Some(Seq::<EmbeddingView>::empty())
        };
        if head0 is Some && matching_records(files, tss.drop_first(), q) is Some && headt
            is Some {
            assert(head0.unwrap() + (matching_records(files, tss.drop_first(), q).unwrap()
                + headt.unwrap()) =~= (head0.unwrap() + matching_records(
                files,
                tss.drop_first(),
                q,
            ).unwrap()) + headt.unwrap());
        }
    }
}

/// Law: a query with no matching tag-set finds nothing.
pub proof fn lemma_no_matching_shards_empty(
    files: Map<Seq<char>, Seq<u8>>,
    tss: Seq<Seq<Seq<char>>>,
    q: Set<Seq<char>>,
)
    requires
        forall|i: int| 0 <= i < tss.len() ==> !q.subset_of((#[trigger] tss[i]).to_set()),
    ensures
        matching_records(files, tss, q) == Some(Seq::<EmbeddingView>::empty()),
    decreases tss.len(),
{
    if tss.len() > 0 {
        lemma_no_matching_shards_empty(files, tss.drop_first(), q);
        assert(Seq::<EmbeddingView>::empty() + Seq::<EmbeddingView>::empty()
            =~= Seq::<EmbeddingView>::empty());
    }
}

proof fn lemma_matching_records_fail(
    files: Map<Seq<char>, Seq<u8>>,
    tss: Seq<Seq<Seq<char>>>,
    q: Set<Seq<char>>,
    i: int,
)
    requires
        0 <= i < tss.len(),
        q.subset_of(tss[i].to_set()),
        parse_shard(shard_bytes_at(files, tss[i])) is None,
    ensures
        matching_records(files, tss, q) is None,
    decreases tss.len(),
{
    if i > 0 {
        assert(tss.drop_first()[i - 1] == tss[i]);
        lemma_matching_records_fail(files, tss.drop_first(), q, i - 1);
    }
}

/// Law: every record a search can see comes from the shard of an indexed
/// tag-set that includes all the query tags.
pub proof fn lemma_matching_records_from_supersets(
    files: Map<Seq<char>, Seq<u8>>,
    tss: Seq<Seq<Seq<char>>>,
    q: Set<Seq<char>>,
    e: EmbeddingView,
)
    requires
        matching_records(files, tss, q) is Some,
        matching_records(files, tss, q).unwrap().contains(e),
    ensures
        exists|i: int|
            0 <= i < tss.len() && q.subset_of((#[trigger] tss[i]).to_set()) && parse_shard(
                shard_bytes_at(files, tss[i]),
            ).unwrap().contains(e),
    decreases tss.len(),
{
    let whole = matching_records(files, tss, q).unwrap();
    let head = if q.subset_of(tss[0].to_set()) {
        parse_shard(shard_bytes_at(files, tss[0]))
    } else {
        Some(Seq::<EmbeddingView>::empty())
    };
    let rest = matching_records(files, tss.drop_first(), q).unwrap();
    let j = choose|j: int| 0 <= j < whole.len() && whole[j] == e;
    if j < head.unwrap().len() {
        assert(head.unwrap()[j] == e);
        assert(q.subset_of(tss[0].to_set()));
        assert(parse_shard(shard_bytes_at(files, tss[0])).unwrap().contains(e));
    } else {
        assert(rest[j - head.unwrap().len()] == e);
        assert(rest.contains(e));
        lemma_matching_records_from_supersets(files, tss.drop_first(), q, e);
        let i = choose|i: int|
            0 <= i < tss.drop_first().len() && q.subset_of(
                (#[trigger] tss.drop_first()[i]).to_set(),
            ) && parse_shard(shard_bytes_at(files, tss.drop_first()[i])).unwrap().contains(e);
        assert(tss.drop_first()[i] == tss[i + 1]);
    }
}

/// Law: every record in the shard of an indexed tag-set that includes all
/// the query tags is among the records the search sees.
pub proof fn lemma_matching_records_complete(
    files: Map<Seq<char>, Seq<u8>>,
    tss: Seq<Seq<Seq<char>>>,
    q: Set<Seq<char>>,
    i: int,
    e: EmbeddingView,
)
    requires
        0 <= i < tss.len(),
        q.subset_of(tss[i].to_set()),
        matching_records(files, tss, q) is Some,
        parse_shard(shard_bytes_at(files, tss[i])) matches Some(es) && es.contains(e),
    ensures
        matching_records(files, tss, q).unwrap().contains(e),
    decreases tss.len(),
{
    let whole = matching_records(files, tss, q).unwrap();
    let head = if q.subset_of(tss[0].to_set()) {
        parse_shard(shard_bytes_at(files, tss[0]))
    } else {
        Some(Seq::<EmbeddingView>::empty())
    };
    let rest = matching_records(files, tss.drop_first(), q).unwrap();
    if i == 0 {
        let es = parse_shard(shard_bytes_at(files, tss[0])).unwrap();
        let j = choose|j: int| 0 <= j < es.len() && es[j] == e;
        assert(whole[j] == e);
    } else {
        assert(tss.drop_first()[i - 1] == tss[i]);
        lemma_matching_records_complete(files, tss.drop_first(), q, i - 1, e);
        let j = choose|j: int| 0 <= j < rest.len() && rest[j] == e;
        assert(whole[head.unwrap().len() + j] == e);
    }
}

proof fn lemma_matching_records_total(
    files: Map<Seq<char>, Seq<u8>>,
    tss: Seq<Seq<Seq<char>>>,
    q: Set<Seq<char>>,
)
    requires
        forall|i: int| 0 <= i < tss.len() ==> parse_shard(
            shard_bytes_at(files, #[trigger] tss[i]),
        ) is Some,
    ensures
        matching_records(files, tss, q) is Some,
    decreases tss.len(),
{
    if tss.len() > 0 {
        assert forall|i: int| 0 <= i < tss.drop_first().len() implies parse_shard(
            shard_bytes_at(files, #[trigger] tss.drop_first()[i]),
        ) is Some by {
            assert(tss.drop_first()[i] == tss[i + 1]);
        }
        lemma_matching_records_total(files, tss.drop_first(), q);
    }
}

/// Law: in a well-formed directory a search cannot fail on a shard, and it
/// sees every record stored under any indexed tag-set that includes all
/// the query tags.
pub proof fn lemma_indexed_records_are_found(
    files: Map<Seq<char>, Seq<u8>>,
    q: Set<Seq<char>>,
    i: int,
    e: EmbeddingView,
)
    requires
        db_wf(files),
        !(files.dom() == Set::<Seq<char>>::empty()),
        0 <= i < parse_index(files[index_filename()]).unwrap().len(),
        q.subset_of(parse_index(files[index_filename()]).unwrap()[i].to_set()),
        parse_shard(
            shard_bytes_at(files, parse_index(files[index_filename()]).unwrap()[i]),
        ) matches Some(es) && es.contains(e),
    ensures
        ({
            let tss = parse_index(files[index_filename()]).unwrap();
            &&& matching_records(files, tss, q) is Some
            &&& matching_records(files, tss, q).unwrap().contains(e)
        }),
{
    let tss = parse_index(files[index_filename()]).unwrap();
    assert forall|j: int| 0 <= j < tss.len() implies parse_shard(
        shard_bytes_at(files, #[trigger] tss[j]),
    ) is Some by {
        assert(files.contains_key(shard_filename_of(tss[j])));
        assert(crate::shard::shard_wf(files[shard_filename_of(tss[j])]));
    }
    lemma_matching_records_total(files, tss, q);
    lemma_matching_records_complete(files, tss, q, i, e);
}

/// After an insert the index file decodes to the grown set list and the
/// batch's records stand in its tag-set's shard.
#[verifier::rlimit(100)]
#[verifier::spinoff_prover]
proof fn lemma_insert_effect_files(
    f0: Map<Seq<char>, Seq<u8>>,
    canon: Seq<Seq<char>>,
    ids: Seq<Uuid>,
    items: Seq<(String, PackedVector)>,
    rs: u32,
)
    requires
        db_wf(f0),
        stored_index_sets(f0) is Some,
        stored_index_sets(f0).unwrap().len() < u64::MAX,
        crate::tags::strictly_sorted(canon),
        crate::index::tags_fit(canon),
        shard_filename_of(canon).len() == 68,
        ids.len() == items.len(),
        items_batch_ok(items),
        rs == (items[0].1@.data.len() + 32) as u32,
        ({
            let name = shard_filename_of(canon);
            f0.contains_key(name) && f0[name].len() > 0 ==> u32_of_le(f0[name].subrange(0, 4))
                == rs
        }),
    ensures
        ({
            let f6 = insert_disk_effect(f0, canon, ids, items, rs);
            let tss0 = stored_index_sets(f0).unwrap();
            let known = exists|i: int|
                0 <= i < tss0.len() && (#[trigger] tss0[i]).to_set() == canon.to_set();
            let tss1 = if known {
                tss0
            } else {
                tss0.push(canon)
            };
            &&& f6.contains_key(index_filename())
            &&& parse_index(f6[index_filename()]) == Some(tss1)
            &&& parse_shard(shard_bytes_at(f6, canon)) is Some
            &&& forall|x: int|
                0 <= x < ids.len() ==> parse_shard(shard_bytes_at(f6, canon)).unwrap().contains(
                    record_views(ids, items)[x],
                )
        }),
{
    lemma_special_names();
    let tss0 = stored_index_sets(f0).unwrap();
    let known = exists|i: int|
        0 <= i < tss0.len() && (#[trigger] tss0[i]).to_set() == canon.to_set();
    let tss1 = if known {
        tss0
    } else {
        tss0.push(canon)
    };
    let name = shard_filename_of(canon);
    let f2 = if known {
        f0
    } else {
        f0.insert(index_filename(), enc_index(tss1))
    };
    let old_shard = if f2.contains_key(name) {
        f2[name]
    } else {
        Seq::<u8>::empty()
    };
    let recs = record_views(ids, items);
    let f6 = insert_disk_effect(f0, canon, ids, items, rs);
    assert(name != index_filename() && name != content_filename());
    if known {
        assert(tss0.len() > 0);
        assert(f0.contains_key(index_filename()));
        assert(!(f0.dom() == Set::<Seq<char>>::empty())) by {
            assert(f0.dom().contains(index_filename()));
        }
        assert(f6[index_filename()] == f0[index_filename()]);
    } else {
        assert(f6[index_filename()] == enc_index(tss1));
        assert(tagsets_fit(tss1)) by {
            if f0.dom() == Set::<Seq<char>>::empty() {
                assert(!f0.dom().contains(index_filename()));
                assert(tss0 =~= Seq::<Seq<Seq<char>>>::empty());
            } else {
                assert(tagsets_fit(tss0));
            }
            assert forall|j: int| 0 <= j < tss1.len() implies crate::index::tags_fit(
                #[trigger] tss1[j],
            ) by {
                if j < tss0.len() {
                    assert(tss1[j] == tss0[j]);
                } else {
                    assert(tss1[j] == canon);
                }
            }
        }
        crate::index::lemma_index_roundtrip(tss1);
    }
    assert(parse_index(f6[index_filename()]) == Some(tss1));
    assert(f6[name] == shard_append(old_shard, recs, rs));
    assert(parse_shard(old_shard) is Some) by {
        if f2.contains_key(name) {
            assert(old_shard == f0[name]);
            assert(f0.dom().contains(name));
            assert(!(f0.dom() == Set::<Seq<char>>::empty()));
            let j0 = choose|j0: int|
                0 <= j0 < tss0.len() && name == shard_filename_of(#[trigger] tss0[j0]);
            assert(crate::shard::shard_wf(f0[shard_filename_of(tss0[j0])]));
        }
    }
    assert(old_shard.len() > 0 ==> u32_of_le(old_shard.subrange(0, 4)) == rs) by {
        if f2.contains_key(name) {
            assert(old_shard == f0[name]);
        }
    }
    assert forall|j: int| 0 <= j < recs.len() implies crate::shard::enc_record(
        #[trigger] recs[j],
    ).len() == rs by {
        assert(recs[j].vector == items[j].1@);
        assert(items[j].1@.data.len() == items[0].1@.data.len());
    }
    crate::shard::lemma_parse_shard_append(old_shard, recs, rs);
    assert(shard_bytes_at(f6, canon) == f6[name]);
    let es = parse_shard(f6[name]).unwrap();
    assert forall|x: int| 0 <= x < ids.len() implies es.contains(recs[x]) by {
        assert(es == parse_shard(old_shard).unwrap() + recs);
        assert(es[parse_shard(old_shard).unwrap().len() + x] == recs[x]);
    }
}

/// Law: after an insert into a well-formed database, every record of the
/// batch is among the records seen by any search whose query tags the
/// batch's tag-set includes. The hypotheses are what a successful insert
/// guarantees of its inputs and of the directory before and after.
pub proof fn lemma_insert_then_search_finds(
    f0: Map<Seq<char>, Seq<u8>>,
    canon: Seq<Seq<char>>,
    ids: Seq<Uuid>,
    items: Seq<(String, PackedVector)>,
    rs: u32,
    q: Set<Seq<char>>,
    x: int,
)
    requires
        db_wf(f0),
        db_wf(insert_disk_effect(f0, canon, ids, items, rs)),
        stored_index_sets(f0) is Some,
        stored_index_sets(f0).unwrap().len() < u64::MAX,
        crate::tags::strictly_sorted(canon),
        crate::index::tags_fit(canon),
        shard_filename_of(canon).len() == 68,
        ids.len() == items.len(),
        items_batch_ok(items),
        rs == (items[0].1@.data.len() + 32) as u32,
        ({
            let name = shard_filename_of(canon);
            f0.contains_key(name) && f0[name].len() > 0 ==> u32_of_le(f0[name].subrange(0, 4))
                == rs
        }),
        q.subset_of(canon.to_set()),
        0 <= x < ids.len(),
    ensures
        ({
            let f6 = insert_disk_effect(f0, canon, ids, items, rs);
            &&& f6.contains_key(index_filename())
            &&& parse_index(f6[index_filename()]) is Some
            &&& matching_records(f6, parse_index(f6[index_filename()]).unwrap(), q) is Some
            &&& matching_records(f6, parse_index(f6[index_filename()]).unwrap(), q).unwrap()
                .contains(record_views(ids, items)[x])
        }),
{
    lemma_insert_effect_files(f0, canon, ids, items, rs);
    let f6 = insert_disk_effect(f0, canon, ids, items, rs);
    let tss0 = stored_index_sets(f0).unwrap();
    let known = exists|i: int|
        0 <= i < tss0.len() && (#[trigger] tss0[i]).to_set() == canon.to_set();
    let tss1 = if known {
        tss0
    } else {
        tss0.push(canon)
    };
    let recs = record_views(ids, items);
    assert(!(f6.dom() == Set::<Seq<char>>::empty())) by {
        assert(f6.dom().contains(index_filename()));
    }
    if known {
        assert(f0.contains_key(index_filename())) by {
            assert(tss0.len() > 0);
        }
        assert(!(f0.dom() == Set::<Seq<char>>::empty())) by {
            assert(f0.dom().contains(index_filename()));
        }
        let j = choose|j: int|
            0 <= j < tss0.len() && (#[trigger] tss0[j]).to_set() == canon.to_set();
        assert(crate::tags::strictly_sorted(tss0[j]));
        lemma_canonical_unique(tss0[j], canon);
        assert(tss1[j] == canon);
        lemma_indexed_records_are_found(f6, q, j, recs[x]);
    } else {
        assert(tss1[tss1.len() - 1] == canon);
        lemma_indexed_records_are_found(f6, q, tss1.len() - 1, recs[x]);
    }
}

impl<D: DirectoryHandle> Victor<D> {
    /// Decodes the index file without touching the directory; an absent
    /// file is the empty index.
    pub fn known_tag_sets(&self) -> (r: Result<Index, DbError>)
        ensures
            r matches Ok(ix) ==> {
                &&& stored_index_sets(self.disk()) == Some(ix.seq_view())
                &&& ix.wf()
            },
            r === Err(DbError::Corruption) ==> !(stored_index_sets(self.disk()) matches Some(tss)
                && index_wf(tss)),
    {
        let iname = index_name();
        match self.root.read_file(&iname) {
            Ok(bytes) => Index::from_bytes(&bytes),
            Err(DbError::NotFound) => {
                let ix = Index::empty();
                proof {
                    assert(ix.seq_view() =~= Seq::<Seq<Seq<char>>>::empty());
                }
                Ok(ix)
            },
            Err(e) => Err(e),
        }
    }

    /// Reads every embedding stored under a tag-set that includes all the
    /// query tags; an empty query matches every tag-set. The directory is
    /// not changed, and a known tag-set whose shard was never written reads
    /// as empty.
    pub fn matching_embeddings(&self, with_tags: &Vec<String>) -> (r: Result<
        Vec<Embedding>,
        DbError,
    >)
        ensures
            r matches Ok(v) ==> ({
                let q = tag_views(with_tags@).to_set();
                &&& stored_index_sets(self.disk()) is Some
                &&& matching_records(self.disk(), stored_index_sets(self.disk()).unwrap(), q)
                    == Some(views_of(v@))
            }),
            r === Err(DbError::Corruption) ==> !(stored_index_sets(self.disk()) matches Some(tss)
                && index_wf(tss) && matching_records(
                self.disk(),
                tss,
                tag_views(with_tags@).to_set(),
            ) is Some),
    {
        let ix = self.known_tag_sets()?;
        let q = TagSet::canonicalize(with_tags);
        let ghost tss = ix.seq_view();
        let ghost qs = tag_views(with_tags@).to_set();
        let n = ix.files.len();
        let mut out: Vec<Embedding> = Vec::new();
        for i in 0..n
            invariant
                n == ix.files@.len(),
                tss == ix.seq_view(),
                qs == q.set_view(),
                qs == tag_views(with_tags@).to_set(),
                stored_index_sets(self.disk()) == Some(tss),
                matching_records(self.disk(), tss.subrange(0, i as int), qs) == Some(
                    views_of(out@),
                ),
        {
            let ghost pre = tss.subrange(0, i as int);
            proof {
                lemma_matching_records_push(self.disk(), pre, qs, tss[i as int]);
                assert(pre.push(tss[i as int]) =~= tss.subrange(0, i as int + 1));
                assert(tss[i as int] == ix.files@[i as int].seq_view());
            }
            if q.is_subset_of(&ix.files[i]) {
                let name = Index::filename_for_tags(&ix.files[i]);
                let bytes = match self.root.read_file(&name) {
                    Ok(b) => b,
                    Err(DbError::NotFound) => Vec::new(),
                    Err(e) => {
                        return Err(e);
                    },
                };
                proof {
                    assert(bytes@ == shard_bytes_at(self.disk(), tss[i as int]));
                }
                let mut recs = match crate::shard::parse_shard_file(&bytes) {
                    Ok(rs2) => rs2,
                    Err(e) => {
                        proof {
                            lemma_matching_records_fail(self.disk(), tss, qs, i as int);
                        }
                        return Err(e);
                    },
                };
                let ghost out0 = out@;
                let ghost recs0 = recs@;
                out.append(&mut recs);
                proof {
                    assert(views_of(out@) =~= views_of(out0) + views_of(recs0));
                }
            } else {
                proof {
                    assert(views_of(out@) + Seq::<EmbeddingView>::empty() =~= views_of(out@));
                }
            }
        }
        proof {
            assert(tss.subrange(0, n as int) =~= tss);
        }
        Ok(out)
    }

    /// Reads the shard one tag-set owns; a shard no file holds yet reads
    /// as empty. The directory is not changed.
    pub fn embeddings_for(&self, tags: &TagSet) -> (r: Result<Vec<Embedding>, DbError>)
        ensures
            r matches Ok(v) ==> parse_shard(shard_bytes_at(self.disk(), tags.seq_view())) == Some(
                views_of(v@),
            ),
    {
        let name = Index::filename_for_tags(tags);
        let bytes = match self.root.read_file(&name) {
            Ok(b) => b,
            Err(DbError::NotFound) => Vec::new(),
            Err(e) => {
                return Err(e);
            },
        };
        proof {
            assert(bytes@ == shard_bytes_at(self.disk(), tags.seq_view()));
        }
        crate::shard::parse_shard_file(&bytes)
    }

    /// Looks up the document for each ranked candidate. Every identifier a
    /// search returns must be a key of the content file: a missing or
    /// undecodable content file, or an identifier without a document, is
    /// corruption. With no candidates the content file is not consulted.
    pub fn attach_content(&self, top: Vec<ScoredEmbedding>) -> (r: Result<
        Vec<NearestNeighborsResult>,
        DbError,
    >)
        ensures
            r matches Ok(v) ==> {
                &&& v@.len() == top@.len()
                &&& forall|i: int|
                    0 <= i < v@.len() ==> (#[trigger] v@[i]).score == top@[i].score && v@[i].embedding
                        == top@[i].embedding
                &&& v@.len() > 0 ==> stored_content(self.disk()) is Some
                &&& forall|i: int|
                    0 <= i < v@.len() ==> crate::content::content_map(
                        stored_content(self.disk()).unwrap(),
                    ).contains_key((#[trigger] v@[i]).embedding.id) && v@[i].content@
                        == crate::content::content_map(
                        stored_content(self.disk()).unwrap(),
                    )[v@[i].embedding.id]
            },
    {
        let mut top = top;
        let ghost top0 = top@;
        if top.len() == 0 {
            let v: Vec<NearestNeighborsResult> = Vec::new();
            return Ok(v);
        }
        let cname = content_name();
        let bytes = match self.root.read_file(&cname) {
            Ok(b) => b,
            Err(DbError::NotFound) => {
                return Err(DbError::Corruption);
            },
            Err(e) => {
                return Err(e);
            },
        };
        let cmap = ContentMap::from_bytes(&bytes)?;
        proof {
            assert(stored_content(self.disk()) == Some(cmap@));
        }
        let n = top.len();
        let mut out: Vec<NearestNeighborsResult> = Vec::new();
        for i in 0..n
            invariant
                n == top0.len(),
                top@ == top0.skip(i as int),
                out@.len() == i,
                stored_content(self.disk()) == Some(cmap@),
                forall|j: int|
                    0 <= j < i ==> (#[trigger] out@[j]).score == top0[j].score && out@[j].embedding
                        == top0[j].embedding,
                forall|j: int|
                    0 <= j < i ==> cmap.map_view().contains_key(
                        (#[trigger] out@[j]).embedding.id,
                    ) && out@[j].content@ == cmap.map_view()[out@[j].embedding.id],
        {
            let item = top.remove(0);
            proof {
                assert(top0.skip(i as int)[0] == top0[i as int]);
                assert(top0.skip(i as int).remove(0) =~= top0.skip(i as int + 1));
            }
            match cmap.get(item.embedding.id) {
                Some(text) => {
                    out.push(
                        NearestNeighborsResult {
                            score: item.score,
                            embedding: item.embedding,
                            content: text,
                        },
                    );
                },
                None => {
                    return Err(DbError::Corruption);
                },
            }
        }
        Ok(out)
    }

    /// Ranks scored candidates and attaches each document: the top `top_n`
    /// by score, descending, each with its text from the content file.
    pub fn search_scored(&self, scored: Vec<ScoredEmbedding>, top_n: usize) -> (r: Result<
        Vec<NearestNeighborsResult>,
        DbError,
    >)
        ensures
            r matches Ok(v) ==> {
                &&& v@.len() == crate::ranking::min_nat(top_n as nat, scored@.len())
                &&& forall|i: int, j: int|
                    0 <= i < j < v@.len() ==> (#[trigger] v@[i]).score >= (#[trigger] v@[j]).score
                &&& forall|i: int|
                    0 <= i < v@.len() ==> scored@.contains(
                        ScoredEmbedding {
                            score: (#[trigger] v@[i]).score,
                            embedding: v@[i].embedding,
                        },
                    )
                &&& ranked_view(v@).to_multiset().subset_of(scored@.to_multiset())
                &&& forall|x: ScoredEmbedding, i: int|
                    #![trigger scored@.to_multiset().count(x), v@[i]]
                    scored@.to_multiset().count(x) > ranked_view(v@).to_multiset().count(x) && 0
                        <= i < v@.len() ==> x.score <= v@[i].score
                &&& forall|i: int|
                    0 <= i < v@.len() ==> crate::content::content_map(
                        stored_content(self.disk()).unwrap(),
                    ).contains_key((#[trigger] v@[i]).embedding.id) && v@[i].content@
                        == crate::content::content_map(
                        stored_content(self.disk()).unwrap(),
                    )[v@[i].embedding.id]
            },
    {
        broadcast use vstd::seq_lib::group_to_multiset_ensures;

        let top = crate::ranking::top_k(scored, top_n);
        let ghost topv = top@;
        let r = self.attach_content(top);
        proof {
            if r is Ok {
                let v = r.unwrap();
                assert forall|i: int| 0 <= i < ranked_view(v@).len() implies ranked_view(v@)[i]
                    == topv[i] by {
                    assert(v@[i].score == topv[i].score && v@[i].embedding == topv[i].embedding);
                }
                assert(ranked_view(v@) =~= topv);
                assert forall|i: int| 0 <= i < v@.len() implies scored@.contains(
                    ScoredEmbedding { score: (#[trigger] v@[i]).score, embedding: v@[i].embedding },
                ) by {
                    assert(v@[i].score == topv[i].score && v@[i].embedding == topv[i].embedding);
                    assert(topv[i] == ScoredEmbedding {
                        score: v@[i].score,
                        embedding: v@[i].embedding,
                    });
                    assert(topv.contains(topv[i]));
                    assert(topv.to_multiset().count(topv[i]) > 0);
                    assert(scored@.to_multiset().count(topv[i]) > 0);
                    assert(scored@.contains(topv[i]));
                }
            }
        }
        r
    }
}

/// The ranking-relevant part of each search result: its order key and its
/// stored embedding.
pub open spec fn ranked_view(v: Seq<NearestNeighborsResult>) -> Seq<ScoredEmbedding> {
    v.map_values(|x: NearestNeighborsResult| ScoredEmbedding { score: x.score, embedding: x.embedding })
}

/// The three fixed file names are pairwise distinct, and none is 68
/// characters long, the length of every shard file name.
pub proof fn lemma_special_names()
    ensures
        index_filename() != content_filename(),
        index_filename() != eigen_filename(),
        content_filename() != eigen_filename(),
        index_filename().len() == 9,
        content_filename().len() == 11,
        eigen_filename().len() == 9,
{
    reveal_strlit("index.bin");
    reveal_strlit("content.bin");
    reveal_strlit("eigen.bin");
    assert(index_filename()[0] == 'i');
    assert(eigen_filename()[0] == 'e');
}

/// The directory shape every sequence of operations preserves: either the
/// directory is empty, or it holds exactly the index file, the content
/// file, one shard per indexed tag-set, and at most the projection file —
/// with the index decoding to canonical, pairwise-distinct tag-sets, the
/// content file decoding, and every shard file empty or a header followed
/// by whole records.
pub open spec fn db_wf(files: Map<Seq<char>, Seq<u8>>) -> bool {
    ||| files.dom() == Set::<Seq<char>>::empty()
    ||| {
        &&& files.contains_key(index_filename())
        &&& files.contains_key(content_filename())
        &&& parse_index(files[index_filename()]) is Some
        &&& index_wf(parse_index(files[index_filename()]).unwrap())
        &&& tagsets_fit(parse_index(files[index_filename()]).unwrap())
        &&& parse_content(files[content_filename()]) is Some
        &&& ({
            let tss = parse_index(files[index_filename()]).unwrap();
            &&& forall|i: int|
                0 <= i < tss.len() ==> shard_filename_of(#[trigger] tss[i]).len() == 68
            &&& forall|i: int|
                0 <= i < tss.len() ==> files.contains_key(shard_filename_of(#[trigger] tss[i]))
            &&& forall|i: int|
                0 <= i < tss.len() ==> crate::shard::shard_wf(
                    files[shard_filename_of(#[trigger] tss[i])],
                )
            &&& forall|k: Seq<char>|
                files.dom().contains(k) ==> k == index_filename() || k == content_filename() || k
                    == eigen_filename() || exists|i: int|
                    0 <= i < tss.len() && k == shard_filename_of(#[trigger] tss[i])
        })
    }
}

/// Law: in a well-formed directory every shard file is empty or holds a
/// four-byte header followed by a whole number of records of the size the
/// header gives.
pub proof fn lemma_db_wf_shard_sizes(files: Map<Seq<char>, Seq<u8>>)
    requires
        db_wf(files),
        !(files.dom() == Set::<Seq<char>>::empty()),
    ensures
        forall|i: int|
            0 <= i < parse_index(files[index_filename()]).unwrap().len()
                ==> crate::shard::shard_size_ok(
                files[shard_filename_of(#[trigger] parse_index(files[index_filename()]).unwrap()[i])],
            ),
{
    let tss = parse_index(files[index_filename()]).unwrap();
    assert forall|i: int| 0 <= i < tss.len() implies crate::shard::shard_size_ok(
        files[shard_filename_of(#[trigger] tss[i])],
    ) by {
        crate::shard::lemma_shard_wf_size(files[shard_filename_of(tss[i])]);
    }
}

/// Law: a non-empty well-formed directory holds exactly the index file,
/// the content file, one shard per indexed tag-set, and at most the
/// projection file.
pub proof fn lemma_db_wf_filenames(files: Map<Seq<char>, Seq<u8>>, k: Seq<char>)
    requires
        db_wf(files),
        !(files.dom() == Set::<Seq<char>>::empty()),
    ensures
        files.dom().contains(k) ==> k == index_filename() || k == content_filename() || k
            == eigen_filename() || exists|i: int|
            0 <= i < parse_index(files[index_filename()]).unwrap().len() && k == shard_filename_of(
                #[trigger] parse_index(files[index_filename()]).unwrap()[i],
            ),
        k == index_filename() || k == content_filename() ==> files.dom().contains(k),
        (exists|i: int|
            0 <= i < parse_index(files[index_filename()]).unwrap().len() && k == shard_filename_of(
                #[trigger] parse_index(files[index_filename()]).unwrap()[i],
            )) ==> files.dom().contains(k),
{
}

/// The names a clear removes: the three fixed files and every indexed
/// tag-set's shard.
pub open spec fn clear_removed(tss: Seq<Seq<Seq<char>>>) -> Set<Seq<char>> {
    Set::new(
        |k: Seq<char>|
            k == index_filename() || k == content_filename() || k == eigen_filename()
                || exists|i: int| 0 <= i < tss.len() && k == shard_filename_of(#[trigger] tss[i]),
    )
}

impl<D: DirectoryHandle> Victor<D> {
    /// Removes every shard the index knows, then the index, content, and
    /// projection files; names already absent are no error. A well-formed
    /// directory is left empty.
    pub fn clear_db(&mut self) -> (r: Result<(), DbError>)
        ensures
            r is Ok ==> ({
                &&& stored_index_sets(old(self).disk()) is Some
                &&& final(self).disk() == old(self).disk().remove_keys(
                    clear_removed(stored_index_sets(old(self).disk()).unwrap()),
                )
            }),
            r is Ok && db_wf(old(self).disk()) ==> final(self).disk().dom() == Set::<
                Seq<char>,
            >::empty() && db_wf(final(self).disk()),
    {
        let ghost f0 = self.disk();
        let ix = self.load_index()?;
        let ghost f1 = self.disk();
        let ghost tss = ix.seq_view();
        let n = ix.files.len();
        for i in 0..n
            invariant
                n == ix.files@.len(),
                tss == ix.seq_view(),
                self.disk() == f1.remove_keys(
                    Set::new(
                        |k: Seq<char>|
                            exists|j: int|
                                0 <= j < i && k == shard_filename_of(#[trigger] tss[j]),
                    ),
                ),
        {
            let name = Index::filename_for_tags(&ix.files[i]);
            proof {
                assert(tss[i as int] == ix.files@[i as int].seq_view());
            }
            self.root.remove_entry(&name)?;
            proof {
                assert(self.disk() =~= f1.remove_keys(
                    Set::new(
                        |k: Seq<char>|
                            exists|j: int|
                                0 <= j < i + 1 && k == shard_filename_of(#[trigger] tss[j]),
                    ),
                ));
            }
        }
        let iname = index_name();
        self.root.remove_entry(&iname)?;
        let cname = content_name();
        self.root.remove_entry(&cname)?;
        let ename = eigen_name();
        self.root.remove_entry(&ename)?;
        proof {
            assert(self.disk() =~= f0.remove_keys(clear_removed(tss)));
            if db_wf(f0) {
                assert forall|k: Seq<char>| !(#[trigger] self.disk().dom().contains(k)) by {
                    if f0.dom() == Set::<Seq<char>>::empty() {
                        assert(!f0.dom().contains(k));
                    } else {
                        if f0.dom().contains(k) {
                            assert(clear_removed(tss).contains(k));
                        }
                    }
                }
                assert(self.disk().dom() =~= Set::<Seq<char>>::empty());
            }
        }
        Ok(())
    }

    /// Whether the projection file exists, without touching the directory.
    pub fn is_projected(&self) -> (r: Result<bool, DbError>)
        ensures
            r matches Ok(b) ==> b == self.disk().contains_key(eigen_filename()),
    {
        let ename = eigen_name();
        match self.root.file_size(&ename) {
            Ok(_) => Ok(true),
            Err(DbError::NotFound) => Ok(false),
            Err(e) => Err(e),
        }
    }

    /// The projection file's bytes; absent means the database is in the
    /// unprojected state.
    pub fn eigen_file(&self) -> (r: Result<Vec<u8>, DbError>)
        ensures
            r matches Ok(v) ==> self.disk().contains_key(eigen_filename()) && v@ == self.disk()[
                eigen_filename()
            ],
            r === Err(DbError::NotFound) <==> !self.disk().contains_key(eigen_filename()),
    {
        let ename = eigen_name();
        self.root.read_file(&ename)
    }

    /// Stores the projection whole, replacing any previous one. The bytes
    /// are the caller's encoding of the fitted projection; the core only
    /// keeps them.
    pub fn write_projection(&mut self, blob: Vec<u8>) -> (r: Result<(), DbError>)
        ensures
            r is Ok ==> final(self).disk() == old(self).disk().insert(eigen_filename(), blob@),
            r is Ok && db_wf(old(self).disk()) && old(self).disk().contains_key(index_filename())
                ==> db_wf(final(self).disk()),
    {
        let ename = eigen_name();
        let fh = self.root.get_file_handle_with_options(
            &ename,
            &GetFileHandleOptions { create: true },
        )?;
        let mut w = fh.create_writable_with_options(
            &self.root,
            &CreateWritableOptions { keep_existing_data: false },
        )?;
        w.write_at_cursor_pos(blob)?;
        proof {
            assert(w.buf() =~= blob@);
        }
        w.close(&mut self.root)?;
        proof {
            assert(final(self).disk() =~= old(self).disk().insert(eigen_filename(), blob@));
            if db_wf(old(self).disk()) && old(self).disk().contains_key(index_filename()) {
                lemma_special_names();
                let f1 = old(self).disk().insert(eigen_filename(), blob@);
                let tss = parse_index(f1[index_filename()]).unwrap();
                assert(f1[index_filename()] == old(self).disk()[index_filename()]);
                assert(f1[content_filename()] == old(self).disk()[content_filename()]);
                assert forall|i: int| 0 <= i < tss.len() implies f1.contains_key(
                    shard_filename_of(#[trigger] tss[i]),
                ) && crate::shard::shard_wf(f1[shard_filename_of(tss[i])]) by {
                    assert(shard_filename_of(tss[i]).len() == 68);
                    assert(shard_filename_of(tss[i]) != eigen_filename());
                    assert(f1[shard_filename_of(tss[i])] == old(self).disk()[shard_filename_of(
                        tss[i],
                    )]);
                }
                assert(db_wf(f1));
            }
        }
        Ok(())
    }

    /// Rewrites a tag-set's shard whole from the given records, as the
    /// reprojection after a fit does: a fresh header with the records'
    /// common size, then the records. The batch must be non-empty and of
    /// one record size.
    pub fn replace_embeddings(&mut self, tags: &TagSet, embs: &Vec<Embedding>) -> (r: Result<
        (),
        DbError,
    >)
        ensures
            r is Ok ==> ({
                let rs = (views_of(embs@)[0].vector.data.len() + 32) as u32;
                &&& batch_ok(views_of(embs@))
                &&& final(self).disk() == old(self).disk().insert(
                    shard_filename_of(tags.seq_view()),
                    shard_append(Seq::empty(), views_of(embs@), rs),
                )
            }),
            r === Err(DbError::RecordSizeMismatch) ==> !batch_ok(views_of(embs@)),
            r is Ok && db_wf(old(self).disk()) && tags.wf() && (exists|i: int|
                0 <= i < stored_index_sets(old(self).disk()).unwrap().len() && (
                #[trigger] stored_index_sets(old(self).disk()).unwrap()[i]).to_set()
                    == tags.set_view()) ==> db_wf(final(self).disk()),
    {
        let (rs, recbytes) = match serialize_records(embs) {
            Ok(x) => x,
            Err(_) => {
                return Err(DbError::RecordSizeMismatch);
            },
        };
        let name = Index::filename_for_tags(tags);
        let fh = self.root.get_file_handle_with_options(
            &name,
            &GetFileHandleOptions { create: true },
        )?;
        let mut payload: Vec<u8> = Vec::new();
        crate::bytes::write_u32_le(rs, &mut payload);
        let mut recbytes = recbytes;
        payload.append(&mut recbytes);
        let mut w = fh.create_writable_with_options(
            &self.root,
            &CreateWritableOptions { keep_existing_data: false },
        )?;
        w.write_at_cursor_pos(payload)?;
        proof {
            assert(w.buf() =~= shard_append(
                Seq::empty(),
                views_of(embs@),
                rs,
            ));
        }
        w.close(&mut self.root)?;
        proof {
            assert((views_of(embs@)[0].vector.data.len() + 32) as u32 == rs);
            assert(final(self).disk() =~= old(self).disk().insert(
                name@,
                shard_append(Seq::empty(), views_of(embs@), rs),
            ));
            if db_wf(old(self).disk()) && tags.wf() && (exists|i: int|
                0 <= i < stored_index_sets(old(self).disk()).unwrap().len() && (
                #[trigger] stored_index_sets(old(self).disk()).unwrap()[i]).to_set()
                    == tags.set_view()) {
                lemma_special_names();
                let f0 = old(self).disk();
                let f1 = final(self).disk();
                let tss = parse_index(f0[index_filename()]).unwrap();
                assert(f0.dom().contains(index_filename()));
                assert(!(f0.dom() == Set::<Seq<char>>::empty())) by {
                    assert(f0.dom().contains(index_filename()));
                }
                let i = choose|i: int|
                    0 <= i < tss.len() && (#[trigger] tss[i]).to_set() == tags.set_view();
                lemma_canonical_unique(tss[i], tags.seq_view());
                assert(name@ == shard_filename_of(tss[i]));
                assert(f1[index_filename()] == f0[index_filename()]);
                assert(f1[content_filename()] == f0[content_filename()]);
                crate::shard::lemma_parse_shard_append(
                    Seq::empty(),
                    views_of(embs@),
                    rs,
                );
                assert forall|j: int| 0 <= j < tss.len() implies f1.contains_key(
                    shard_filename_of(#[trigger] tss[j]),
                ) && crate::shard::shard_wf(f1[shard_filename_of(tss[j])]) by {
                    if shard_filename_of(tss[j]) == name@ {
                        assert(crate::shard::shard_wf(f1[name@]));
                    } else {
                        assert(f1[shard_filename_of(tss[j])] == f0[shard_filename_of(tss[j])]);
                    }
                }
                assert forall|k: Seq<char>| f1.dom().contains(k) implies k == index_filename() || k
                    == content_filename() || k == eigen_filename() || exists|j: int|
                    0 <= j < tss.len() && k == shard_filename_of(#[trigger] tss[j]) by {
                    if k == name@ {
                        assert(k == shard_filename_of(tss[i]));
                    } else {
                        assert(f0.dom().contains(k));
                    }
                }
                assert(db_wf(f1));
            }
        }
        Ok(())
    }
}


impl<D: DirectoryHandle> Victor<D> {
    /// Inserts one document with its packed vector: a batch of one.
    pub fn add_embedding(
        &mut self,
        content: String,
        vector: PackedVector,
        tags: &Vec<String>,
    ) -> (r: Result<InsertOutcome, DbError>)
        ensures
            r matches Ok(out) ==> ({
                let f0 = old(self).disk();
                &&& out.tags.wf()
                &&& out.tags.set_view() == tag_views(tags@).to_set()
                &&& out.ids@.len() == 1
                &&& stored_index_sets(f0) is Some
                &&& index_wf(stored_index_sets(f0).unwrap())
                &&& final(self).disk() == insert_disk_effect(
                    f0,
                    out.tags.seq_view(),
                    out.ids@,
                    seq![(content, vector)],
                    (vector@.data.len() + 32) as u32,
                )
            }),
            r is Ok && db_wf(old(self).disk()) ==> db_wf(final(self).disk()),
    {
        let mut items: Vec<(String, PackedVector)> = Vec::new();
        items.push((content, vector));
        proof {
            assert(items@ =~= seq![(items@[0].0, items@[0].1)]);
        }
        let ghost items0 = items@;
        let r = self.add_embedding_many(items, tags);
        proof {
            if r is Ok {
                assert(items0 =~= seq![(items0[0].0, items0[0].1)]);
            }
        }
        r
    }
}

/// An insert keeps the directory well formed: the grown index still
/// decodes to canonical distinct sets, the appended shard still parses,
/// the rewritten content file still decodes, and no file appears beyond
/// the shape the invariant allows.
#[verifier::rlimit(100)]
#[verifier::spinoff_prover]
proof fn lemma_insert_preserves_wf(
    f0: Map<Seq<char>, Seq<u8>>,
    f2: Map<Seq<char>, Seq<u8>>,
    f4: Map<Seq<char>, Seq<u8>>,
    f6: Map<Seq<char>, Seq<u8>>,
    tss0: Seq<Seq<Seq<char>>>,
    canon: Seq<Seq<char>>,
    known: bool,
    recs: Seq<EmbeddingView>,
    rs: u32,
    old_shard: Seq<u8>,
    entries1: Seq<ContentEntryView>,
)
    requires
        db_wf(f0),
        stored_index_sets(f0) == Some(tss0),
        crate::tags::strictly_sorted(canon),
        known == exists|i: int|
            0 <= i < tss0.len() && (#[trigger] tss0[i]).to_set() == canon.to_set(),
        shard_filename_of(canon).len() == 68,
        !known ==> tagsets_fit(tss0.push(canon)),
        f2 == if known {
            f0
        } else {
            f0.insert(index_filename(), enc_index(tss0.push(canon)))
        },
        old_shard == if f2.contains_key(shard_filename_of(canon)) {
            f2[shard_filename_of(canon)]
        } else {
            Seq::<u8>::empty()
        },
        rs > 0,
        forall|x: int| 0 <= x < recs.len() ==> crate::shard::enc_record(#[trigger] recs[x]).len()
            == rs,
        old_shard.len() > 0 ==> u32_of_le(old_shard.subrange(0, 4)) == rs,
        f4 == f2.insert(shard_filename_of(canon), shard_append(old_shard, recs, rs)),
        f6 == f4.insert(content_filename(), enc_content(entries1)),
        entries1.len() <= u64::MAX,
        forall|x: int| 0 <= x < entries1.len() ==> vstd::utf8::encode_utf8(
            (#[trigger] entries1[x]).1,
        ).len() <= u64::MAX,
    ensures
        db_wf(f6),
{
    lemma_special_names();
    let name = shard_filename_of(canon);
    let tss1 = if known {
        tss0
    } else {
        tss0.push(canon)
    };
    assert(name != index_filename() && name != content_filename());
    if known {
        assert(tss0.len() > 0);
        assert(f0.contains_key(index_filename()));
        assert(!(f0.dom() == Set::<Seq<char>>::empty())) by {
            assert(f0.dom().contains(index_filename()));
        }
    }
    assert(f6.contains_key(index_filename()));
    assert(parse_index(f6[index_filename()]) == Some(tss1) && tagsets_fit(tss1)) by {
        if known {
            assert(f6[index_filename()] == f0[index_filename()]);
        } else {
            assert(f6[index_filename()] == enc_index(tss1));
            crate::index::lemma_index_roundtrip(tss1);
        }
    }
    assert(index_wf(tss1)) by {
        if !(f0.dom() == Set::<Seq<char>>::empty()) {
            assert(index_wf(tss0));
        }
        if !known {
            assert forall|a: int| 0 <= a < tss1.len() implies crate::tags::strictly_sorted(
                #[trigger] tss1[a],
            ) by {
                if a < tss0.len() {
                    assert(tss1[a] == tss0[a]);
                } else {
                    assert(tss1[a] == canon);
                }
            }
            assert forall|a: int, b: int| 0 <= a < b < tss1.len() implies (
            #[trigger] tss1[a]).to_set() != (#[trigger] tss1[b]).to_set() by {
                if b < tss0.len() {
                    assert(tss1[a] == tss0[a] && tss1[b] == tss0[b]);
                } else {
                    assert(tss1[a] == tss0[a] && tss1[b] == canon);
                }
            }
        }
    }
    assert(f6.contains_key(content_filename()));
    assert(parse_content(f6[content_filename()]) is Some) by {
        crate::content::lemma_content_roundtrip(entries1);
    }
    assert(crate::shard::shard_wf(f6[name])) by {
        assert(parse_shard(old_shard) is Some) by {
            if f2.contains_key(name) {
                assert(old_shard == f0[name]);
                assert(f0.dom().contains(name));
                assert(!(f0.dom() == Set::<Seq<char>>::empty()));
                let j0 = choose|j0: int|
                    0 <= j0 < tss0.len() && name == shard_filename_of(#[trigger] tss0[j0]);
                assert(crate::shard::shard_wf(f0[shard_filename_of(tss0[j0])]));
            }
        }
        crate::shard::lemma_parse_shard_append(old_shard, recs, rs);
        assert(f6[name] == shard_append(old_shard, recs, rs));
    }
    assert forall|j: int| 0 <= j < tss1.len() implies shard_filename_of(
        #[trigger] tss1[j],
    ).len() == 68 && f6.contains_key(shard_filename_of(tss1[j])) && crate::shard::shard_wf(
        f6[shard_filename_of(tss1[j])],
    ) by {
        if j < tss0.len() {
            assert(tss1[j] == tss0[j]);
            assert(!(f0.dom() == Set::<Seq<char>>::empty())) by {
                assert(f0.dom().contains(index_filename()));
            }
            assert(shard_filename_of(tss0[j]).len() == 68);
            assert(f0.contains_key(shard_filename_of(tss0[j])));
            if shard_filename_of(tss0[j]) == name {
                assert(crate::shard::shard_wf(f6[name]));
            } else {
                assert(f6[shard_filename_of(tss0[j])] == f0[shard_filename_of(tss0[j])]);
                assert(crate::shard::shard_wf(f0[shard_filename_of(tss0[j])]));
            }
        } else {
            assert(tss1[j] == canon);
            assert(shard_filename_of(tss1[j]) == name);
            assert(crate::shard::shard_wf(f6[name]));
        }
    }
    assert forall|k: Seq<char>| f6.dom().contains(k) implies k == index_filename() || k
        == content_filename() || k == eigen_filename() || exists|j: int|
        0 <= j < tss1.len() && k == shard_filename_of(#[trigger] tss1[j]) by {
        if k == name {
            if known {
                let j0 = choose|j0: int|
                    0 <= j0 < tss0.len() && (#[trigger] tss0[j0]).to_set() == canon.to_set();
                assert(crate::tags::strictly_sorted(tss0[j0]));
                lemma_canonical_unique(tss0[j0], canon);
                assert(k == shard_filename_of(tss1[j0]));
            } else {
                assert(k == shard_filename_of(tss1[tss1.len() - 1]));
            }
        } else if k != index_filename() && k != content_filename() && k != eigen_filename() {
            assert(f0.dom().contains(k));
            assert(!(f0.dom() == Set::<Seq<char>>::empty())) by {
                assert(f0.dom().contains(k));
            }
            let j0 = choose|j0: int|
                0 <= j0 < tss0.len() && k == shard_filename_of(#[trigger] tss0[j0]);
            assert(tss1[j0] == tss0[j0]);
            assert(k == shard_filename_of(tss1[j0]));
        }
    }
    assert(db_wf(f6));
}

/// Record sizes depend on the vectors alone: a batch serializes to one
/// record size exactly when its vectors share one dimensionality.
proof fn lemma_batch_items(vs: Seq<EmbeddingView>, ids: Seq<Uuid>, items: Seq<
    (String, PackedVector),
>)
    requires
        ids.len() == items.len(),
        vs == record_views(ids, items),
    ensures
        batch_ok(vs) == items_batch_ok(items),
        items.len() > 0 ==> crate::shard::enc_record(vs[0]).len() == items[0].1@.data.len() + 32,
{
    assert forall|i: int| 0 <= i < vs.len() implies crate::shard::enc_record(#[trigger] vs[i]).len()
        == items[i].1@.data.len() + 32 by {
        assert(vs[i].vector == items[i].1@);
    }
    if items.len() > 0 {
        if items_batch_ok(items) {
            assert forall|i: int| 0 <= i < vs.len() implies crate::shard::enc_record(
                #[trigger] vs[i],
            ).len() == crate::shard::enc_record(vs[0]).len() by {
                assert(items[i].1@.data.len() == items[0].1@.data.len());
            }
        }
        if batch_ok(vs) {
            assert forall|i: int| 0 <= i < items.len() implies (#[trigger] items[i]).1@.data.len()
                == items[0].1@.data.len() by {
                assert(crate::shard::enc_record(vs[i]).len() == crate::shard::enc_record(
                    vs[0],
                ).len());
            }
        }
    }
}

/// The index file's name, as a string.
fn index_name() -> (r: String)
    ensures
        r@ == index_filename(),
{
    "index.bin".to_owned()
}

/// The content file's name, as a string.
fn content_name() -> (r: String)
    ensures
        r@ == content_filename(),
{
    "content.bin".to_owned()
}

/// The projection file's name, as a string.
fn eigen_name() -> (r: String)
    ensures
        r@ == eigen_filename(),
{
    "eigen.bin".to_owned()
}

} // verus!
