//! The storage abstraction: a directory of named byte files.
//!
//! A backend implements [`DirectoryHandle`]; its abstract state is the map
//! from file name to contents given by the `files` spec function. The
//! in-memory backend under [`memory`] is verified against these contracts; a
//! persistent backend may be supplied from outside the core. File handles
//! carry only the entry name, and writer streams buffer their bytes and
//! commit them to the directory when closed, so that one growable buffer per
//! open writer stands in for the shared-buffer semantics a backend may use.
use vstd::prelude::*;

use crate::DbError;

pub mod memory;

verus! {

/// Options for [`DirectoryHandle::get_file_handle_with_options`]: whether an
/// absent entry is created.
pub struct GetFileHandleOptions {
    pub create: bool,
}

/// Options for [`FileHandle::create_writable_with_options`]: whether the
/// stream starts from the current contents or from an empty file.
pub struct CreateWritableOptions {
    pub keep_existing_data: bool,
}

/// A directory of named byte files.
///
/// Every operation may fail with [`DbError::Storage`] at the backend's
/// discretion; on failure the abstract state is unchanged. The in-memory
/// backend fails only where a contract names the error exactly.
pub trait DirectoryHandle: Sized {
    /// The abstract state: file name to file contents. A backend outside
    /// the verifier's view may leave the default; verified callers rely on
    /// this function only abstractly.
    open spec fn files(&self) -> Map<Seq<char>, Seq<u8>> {
        Map::empty()
    }

    /// Opens the named entry, creating an empty one when `options.create` is
    /// set and the name is absent.
    fn get_file_handle_with_options(
        &mut self,
        name: &String,
        options: &GetFileHandleOptions,
    ) -> (r: Result<FileHandle, DbError>)
        ensures
            r matches Ok(h) ==> {
                &&& h.name@ == name@
                &&& if old(self).files().contains_key(name@) {
                    final(self).files() == old(self).files()
                } else {
                    options.create && final(self).files() == old(self).files().insert(
                        name@,
                        Seq::<u8>::empty(),
                    )
                }
            },
            r is Err ==> final(self).files() == old(self).files(),
            r is Err ==> r === Err(DbError::NotFound) || r === Err(DbError::Storage),
            r === Err(DbError::NotFound) ==> !old(self).files().contains_key(name@),
            !options.create && !old(self).files().contains_key(name@) ==> r === Err(
                DbError::NotFound,
            ),
    ;

    /// Removes the named entry; removing an absent name succeeds and changes
    /// nothing.
    fn remove_entry(&mut self, name: &String) -> (r: Result<(), DbError>)
        ensures
            r is Ok ==> final(self).files() == old(self).files().remove(name@),
            r is Err ==> final(self).files() == old(self).files(),
            r is Err ==> r === Err(DbError::NotFound) || r === Err(DbError::Storage),
    ;

    /// The full contents of the named entry.
    fn read_file(&self, name: &String) -> (r: Result<Vec<u8>, DbError>)
        ensures
            r matches Ok(v) ==> self.files().contains_key(name@) && v@ == self.files()[name@],
            r is Err ==> r === Err(DbError::NotFound) || r === Err(DbError::Storage),
            r === Err(DbError::NotFound) <==> !self.files().contains_key(name@),
    ;

    /// The byte length of the named entry.
    fn file_size(&self, name: &String) -> (r: Result<usize, DbError>)
        ensures
            r matches Ok(n) ==> self.files().contains_key(name@) && n == self.files()[name@].len(),
            r is Err ==> r === Err(DbError::NotFound) || r === Err(DbError::Storage),
            r === Err(DbError::NotFound) <==> !self.files().contains_key(name@),
    ;

    /// Replaces the named entry's contents whole, creating it when absent.
    fn write_file(&mut self, name: &String, data: Vec<u8>) -> (r: Result<(), DbError>)
        ensures
            r is Ok ==> final(self).files() == old(self).files().insert(name@, data@),
            r is Err ==> final(self).files() == old(self).files(),
            r is Err ==> r === Err(DbError::NotFound) || r === Err(DbError::Storage),
    ;
}

/// A handle to one directory entry; it carries the entry's name.
pub struct FileHandle {
    pub name: String,
}

impl FileHandle {
    /// The full contents of the file.
    pub fn read<D: DirectoryHandle>(&self, root: &D) -> (r: Result<Vec<u8>, DbError>)
        ensures
            r matches Ok(v) ==> root.files().contains_key(self.name@) && v@ == root.files()[self.name@],
            r is Err ==> r === Err(DbError::NotFound) || r === Err(DbError::Storage),
            r === Err(DbError::NotFound) <==> !root.files().contains_key(self.name@),
    {
        root.read_file(&self.name)
    }

    /// The current byte length of the file.
    pub fn size<D: DirectoryHandle>(&self, root: &D) -> (r: Result<usize, DbError>)
        ensures
            r matches Ok(n) ==> root.files().contains_key(self.name@) && n == root.files()[self.name@].len(),
            r is Err ==> r === Err(DbError::NotFound) || r === Err(DbError::Storage),
            r === Err(DbError::NotFound) <==> !root.files().contains_key(self.name@),
    {
        root.file_size(&self.name)
    }

    /// Opens a writer stream over this file. With `keep_existing_data` the
    /// stream starts from the current contents, otherwise from an empty
    /// buffer; either way the cursor starts at offset zero and nothing
    /// reaches the directory until the stream is closed.
    pub fn create_writable_with_options<D: DirectoryHandle>(
        &self,
        root: &D,
        options: &CreateWritableOptions,
    ) -> (r: Result<WritableFileStream, DbError>)
        ensures
            r matches Ok(w) ==> {
                &&& w.fname() == self.name@
                &&& w.cursor() == 0
                &&& w.wf()
                &&& if options.keep_existing_data {
                    root.files().contains_key(self.name@) && w.buf() == root.files()[self.name@]
                } else {
                    w.buf() == Seq::<u8>::empty()
                }
            },
            r is Err ==> r === Err(DbError::NotFound) || r === Err(DbError::Storage),
            options.keep_existing_data && !root.files().contains_key(self.name@) ==> r === Err(
                DbError::NotFound,
            ),
    {
        if options.keep_existing_data {
            let data = root.read_file(&self.name)?;
            Ok(WritableFileStream { name: self.name.clone(), data, cursor_pos: 0 })
        } else {
            Ok(WritableFileStream { name: self.name.clone(), data: Vec::new(), cursor_pos: 0 })
        }
    }
}

/// A writer stream: a byte buffer with a cursor. Writing at the cursor
/// replaces everything from the cursor on; closing the stream commits the
/// buffer to the directory under the stream's name.
pub struct WritableFileStream {
    name: String,
    data: Vec<u8>,
    cursor_pos: usize,
}

impl WritableFileStream {
    /// The name the buffer is committed under.
    pub closed spec fn fname(&self) -> Seq<char> {
        self.name@
    }

    /// The buffered contents.
    pub closed spec fn buf(&self) -> Seq<u8> {
        self.data@
    }

    /// The cursor offset.
    pub closed spec fn cursor(&self) -> nat {
        self.cursor_pos as nat
    }

    /// The cursor never passes the end of the buffer.
    pub open spec fn wf(&self) -> bool {
        self.cursor() <= self.buf().len()
    }

    /// Moves the cursor; an offset past the end of the buffer is refused.
    pub fn seek(&mut self, offset: usize) -> (r: Result<(), DbError>)
        ensures
            final(self).fname() == old(self).fname(),
            final(self).buf() == old(self).buf(),
            r is Ok <==> offset <= old(self).buf().len(),
            r is Ok ==> final(self).cursor() == offset && final(self).wf(),
            r is Err ==> r === Err(DbError::Storage) && final(self).cursor() == old(
                self,
            ).cursor(),
    {
        if offset > self.data.len() {
            return Err(DbError::Storage);
        }
        self.cursor_pos = offset;
        Ok(())
    }

    /// Writes `data` at the cursor: the buffer keeps its first `cursor`
    /// bytes, then holds `data`, and the cursor moves to the new end.
    pub fn write_at_cursor_pos(&mut self, data: Vec<u8>) -> (r: Result<(), DbError>)
        requires
            old(self).wf(),
        ensures
            r is Ok,
            final(self).fname() == old(self).fname(),
            final(self).buf() == old(self).buf().subrange(0, old(self).cursor() as int) + data@,
            final(self).cursor() == old(self).cursor() + data@.len(),
            final(self).wf(),
    {
        let mut data = data;
        let ghost d: Seq<u8> = data@;
        self.data.truncate(self.cursor_pos);
        self.data.append(&mut data);
        self.cursor_pos = self.data.len();
        proof {
            assert(self.data@ =~= old(self).data@.subrange(0, old(self).cursor_pos as int) + d);
        }
        Ok(())
    }

    /// Closes the stream, committing the buffered bytes to the directory
    /// under the stream's name.
    pub fn close<D: DirectoryHandle>(self, root: &mut D) -> (r: Result<(), DbError>)
        ensures
            r is Ok ==> final(root).files() == old(root).files().insert(self.fname(), self.buf()),
            r is Err ==> final(root).files() == old(root).files(),
            r is Err ==> r === Err(DbError::NotFound) || r === Err(DbError::Storage),
    {
        root.write_file(&self.name, self.data)
    }
}

} // verus!
