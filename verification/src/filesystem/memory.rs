//! The in-memory backend: a directory kept as a list of name/contents pairs,
//! for tests and for workloads that need no persistence.
use vstd::prelude::*;

use crate::DbError;
use crate::filesystem::{FileHandle, GetFileHandleOptions};
use crate::filesystem::DirectoryHandle as DirectoryCapability;

verus! {

/// The map described by an association list, later entries winning.
pub open spec fn entries_map(s: Seq<(String, Vec<u8>)>) -> Map<Seq<char>, Seq<u8>>
    decreases s.len(),
{
    if s.len() == 0 {
        Map::empty()
    } else {
        entries_map(s.drop_last()).insert(s.last().0@, s.last().1@)
    }
}

/// No two entries share a name.
pub open spec fn distinct_names(s: Seq<(String, Vec<u8>)>) -> bool {
    forall|i: int, j: int| 0 <= i < j < s.len() ==> s[i].0@ != s[j].0@
}

proof fn lemma_distinct_drop_last(s: Seq<(String, Vec<u8>)>)
    requires
        distinct_names(s),
        s.len() > 0,
    ensures
        distinct_names(s.drop_last()),
{
    assert forall|i: int, j: int| 0 <= i < j < s.drop_last().len() implies s.drop_last()[i].0@
        != s.drop_last()[j].0@ by {
        assert(s[i] == s.drop_last()[i]);
        assert(s[j] == s.drop_last()[j]);
    }
}

proof fn lemma_entries_map_absent(s: Seq<(String, Vec<u8>)>, k: Seq<char>)
    requires
        forall|j: int| 0 <= j < s.len() ==> s[j].0@ != k,
    ensures
        !entries_map(s).contains_key(k),
    decreases s.len(),
{
    if s.len() > 0 {
        lemma_entries_map_absent(s.drop_last(), k);
    }
}

proof fn lemma_entries_map_get(s: Seq<(String, Vec<u8>)>, i: int)
    requires
        distinct_names(s),
        0 <= i < s.len(),
    ensures
        entries_map(s).contains_key(s[i].0@),
        entries_map(s)[s[i].0@] == s[i].1@,
    decreases s.len(),
{
    if i < s.len() - 1 {
        lemma_distinct_drop_last(s);
        lemma_entries_map_get(s.drop_last(), i);
        assert(s.drop_last()[i] == s[i]);
    }
}

proof fn lemma_entries_map_remove(s: Seq<(String, Vec<u8>)>, i: int)
    requires
        distinct_names(s),
        0 <= i < s.len(),
    ensures
        entries_map(s.remove(i)) == entries_map(s).remove(s[i].0@),
    decreases s.len(),
{
    let k = s[i].0@;
    if i == s.len() - 1 {
        assert(s.remove(i) =~= s.drop_last());
        lemma_distinct_drop_last(s);
        assert forall|j: int| 0 <= j < s.drop_last().len() implies s.drop_last()[j].0@ != k by {
            assert(s[j] == s.drop_last()[j]);
        }
        lemma_entries_map_absent(s.drop_last(), k);
        assert(entries_map(s.drop_last()).insert(k, s[i].1@).remove(k) =~= entries_map(
            s.drop_last(),
        ));
    } else {
        lemma_distinct_drop_last(s);
        assert(s.remove(i).drop_last() =~= s.drop_last().remove(i));
        assert(s.remove(i).last() == s.last());
        lemma_entries_map_remove(s.drop_last(), i);
        assert(s.drop_last()[i] == s[i]);
        assert(s.last().0@ != k);
        assert(entries_map(s.remove(i)) == entries_map(s.remove(i).drop_last()).insert(
            s.remove(i).last().0@,
            s.remove(i).last().1@,
        ));
        assert(entries_map(s.drop_last()).remove(k).insert(s.last().0@, s.last().1@)
            =~= entries_map(s.drop_last()).insert(s.last().0@, s.last().1@).remove(k));
    }
}

/// The position of the named entry in the list, when present.
fn find_in(entries: &Vec<(String, Vec<u8>)>, name: &String) -> (r: Option<usize>)
    ensures
        r matches Some(i) ==> i < entries@.len() && entries@[i as int].0@ == name@,
        r is None ==> forall|j: int| 0 <= j < entries@.len() ==> entries@[j].0@ != name@,
{
    let n = entries.len();
    for i in 0..n
        invariant
            n == entries@.len(),
            forall|j: int| 0 <= j < i ==> entries@[j].0@ != name@,
    {
        if entries[i].0 == *name {
            return Some(i);
        }
    }
    None
}

/// A virtual directory: the named files and their contents, held in memory.
pub struct DirectoryHandle {
    entries: Vec<(String, Vec<u8>)>,
}

impl DirectoryHandle {
    #[verifier::type_invariant]
    spec fn wf(&self) -> bool {
        distinct_names(self.entries@)
    }

    /// A fresh directory with no entries.
    pub fn new() -> (r: Self)
        ensures
            r.files() == Map::<Seq<char>, Seq<u8>>::empty(),
    {
        DirectoryHandle { entries: Vec::new() }
    }
}

impl Default for DirectoryHandle {
    /// A fresh directory with no entries.
    fn default() -> (r: Self)
        ensures
            r.files() == Map::<Seq<char>, Seq<u8>>::empty(),
    {
        DirectoryHandle::new()
    }
}

impl crate::filesystem::DirectoryHandle for DirectoryHandle {
    closed spec fn files(&self) -> Map<Seq<char>, Seq<u8>> {
        entries_map(self.entries@)
    }

    fn get_file_handle_with_options(
        &mut self,
        name: &String,
        options: &GetFileHandleOptions,
    ) -> (r: Result<FileHandle, DbError>) {
        proof {
            use_type_invariant(&*self);
        }
        match find_in(&self.entries, name) {
            Some(i) => {
                proof {
                    lemma_entries_map_get(self.entries@, i as int);
                }
                Ok(FileHandle { name: name.clone() })
            },
            None => {
                if options.create {
                    proof {
                        lemma_entries_map_absent(self.entries@, name@);
                    }
                    let ghost s0 = self.entries@;
                    let mut entries = Vec::new();
                    core::mem::swap(&mut entries, &mut self.entries);
                    entries.push((name.clone(), Vec::new()));
                    proof {
                        assert forall|a: int, b: int|
                            0 <= a < b < entries@.len() implies entries@[a].0@
                            != entries@[b].0@ by {
                            if b < s0.len() {
                                assert(entries@[a] == s0[a] && entries@[b] == s0[b]);
                            } else {
                                assert(entries@[a] == s0[a]);
                            }
                        }
                    }
                    self.entries = entries;
                    proof {
                        assert(self.entries@.drop_last() =~= s0);
                    }
                    Ok(FileHandle { name: name.clone() })
                } else {
                    proof {
                        lemma_entries_map_absent(self.entries@, name@);
                    }
                    Err(DbError::NotFound)
                }
            },
        }
    }

    fn remove_entry(&mut self, name: &String) -> (r: Result<(), DbError>) {
        proof {
            use_type_invariant(&*self);
        }
        match find_in(&self.entries, name) {
            Some(i) => {
                proof {
                    lemma_entries_map_remove(self.entries@, i as int);
                }
                let ghost s0 = self.entries@;
                let mut entries = Vec::new();
                core::mem::swap(&mut entries, &mut self.entries);
                entries.remove(i);
                proof {
                    assert forall|a: int, b: int|
                        0 <= a < b < entries@.len() implies entries@[a].0@ != entries@[b].0@ by {
                        assert(entries@[a] == if a < i { s0[a] } else { s0[a + 1] });
                        assert(entries@[b] == if b < i { s0[b] } else { s0[b + 1] });
                    }
                }
                self.entries = entries;
                Ok(())
            },
            None => {
                proof {
                    lemma_entries_map_absent(self.entries@, name@);
                    assert(entries_map(self.entries@).remove(name@) =~= entries_map(
                        self.entries@,
                    ));
                }
                Ok(())
            },
        }
    }

    fn read_file(&self, name: &String) -> (r: Result<Vec<u8>, DbError>) {
        proof {
            use_type_invariant(&*self);
        }
        match find_in(&self.entries, name) {
            Some(i) => {
                proof {
                    lemma_entries_map_get(self.entries@, i as int);
                }
                Ok(vstd::slice::slice_to_vec(self.entries[i].1.as_slice()))
            },
            None => {
                proof {
                    lemma_entries_map_absent(self.entries@, name@);
                }
                Err(DbError::NotFound)
            },
        }
    }

    fn file_size(&self, name: &String) -> (r: Result<usize, DbError>) {
        proof {
            use_type_invariant(&*self);
        }
        match find_in(&self.entries, name) {
            Some(i) => {
                proof {
                    lemma_entries_map_get(self.entries@, i as int);
                }
                Ok(self.entries[i].1.len())
            },
            None => {
                proof {
                    lemma_entries_map_absent(self.entries@, name@);
                }
                Err(DbError::NotFound)
            },
        }
    }

    fn write_file(&mut self, name: &String, data: Vec<u8>) -> (r: Result<(), DbError>) {
        proof {
            use_type_invariant(&*self);
        }
        let ghost s0 = self.entries@;
        match find_in(&self.entries, name) {
            Some(i) => {
                proof {
                    lemma_entries_map_remove(s0, i as int);
                }
                let mut entries = Vec::new();
                core::mem::swap(&mut entries, &mut self.entries);
                entries.remove(i);
                proof {
                    assert forall|a: int, b: int|
                        0 <= a < b < entries@.len() implies entries@[a].0@ != entries@[b].0@ by {
                        assert(entries@[a] == if a < i { s0[a] } else { s0[a + 1] });
                        assert(entries@[b] == if b < i { s0[b] } else { s0[b + 1] });
                    }
                    assert forall|j: int| 0 <= j < entries@.len() implies entries@[j].0@
                        != name@ by {
                        assert(entries@[j] == if j < i { s0[j] } else { s0[j + 1] });
                    }
                }
                let ghost s1 = entries@;
                entries.push((name.clone(), data));
                proof {
                    assert forall|a: int, b: int|
                        0 <= a < b < entries@.len() implies entries@[a].0@ != entries@[b].0@ by {
                        if b < s1.len() {
                            assert(entries@[a] == s1[a] && entries@[b] == s1[b]);
                        } else {
                            assert(entries@[a] == s1[a]);
                        }
                    }
                }
                self.entries = entries;
                proof {
                    assert(self.entries@.drop_last() =~= s1);
                    assert(entries_map(s0).remove(name@).insert(name@, data@) =~= entries_map(
                        s0,
                    ).insert(name@, data@));
                }
                Ok(())
            },
            None => {
                proof {
                    lemma_entries_map_absent(s0, name@);
                }
                let mut entries = Vec::new();
                core::mem::swap(&mut entries, &mut self.entries);
                entries.push((name.clone(), data));
                proof {
                    assert forall|a: int, b: int|
                        0 <= a < b < entries@.len() implies entries@[a].0@ != entries@[b].0@ by {
                        if b < s0.len() {
                            assert(entries@[a] == s0[a] && entries@[b] == s0[b]);
                        } else {
                            assert(entries@[a] == s0[a]);
                        }
                    }
                }
                self.entries = entries;
                proof {
                    assert(self.entries@.drop_last() =~= s0);
                }
                Ok(())
            },
        }
    }
}

} // verus!
