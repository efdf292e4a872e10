use vstd::prelude::*;

use crate::file_arena::{FileArena, FileDescriptor, FileHandle};

verus! {

/// Why a file operation failed.
#[derive(Debug, PartialEq, Eq)]
pub enum FileError {
    InvalidDescriptor,
}

/// What the specification sees of a file: its path, its bytes and where the
/// next read starts.
pub struct FileState {
    pub path: Seq<char>,
    pub content: Seq<u8>,
    pub cursor: nat,
}

/// A file held in memory.
struct InMemoryFile {
    path: String,
    content: Vec<u8>,
    cursor: usize,
}

/// Bytes that a read into a buffer of `buf_len` bytes takes from `f`: what
/// fits, up to the end of the file.
pub open spec fn read_count(f: FileState, buf_len: nat) -> nat {
    let left = f.content.len() - f.cursor;
    if buf_len < left {
        buf_len
    } else {
        left as nat
    }
}

/// `buf` after a read from `f`: its first bytes are the file's bytes from
/// the cursor on.
pub open spec fn read_into(f: FileState, buf: Seq<u8>) -> Seq<u8> {
    let n = read_count(f, buf.len());
    Seq::new(buf.len(), |k: int| if k < n { f.content[f.cursor + k] } else { buf[k] })
}

/// `f` after a read into a buffer of `buf_len` bytes.
pub open spec fn after_read(f: FileState, buf_len: nat) -> FileState {
    FileState { path: f.path, content: f.content, cursor: f.cursor + read_count(f, buf_len) }
}

/// `f` after `bytes` are written to it: they go to its end.
pub open spec fn after_write(f: FileState, bytes: Seq<u8>) -> FileState {
    FileState { path: f.path, content: f.content + bytes, cursor: f.cursor }
}

/// Index of the first file whose path is `path`, or the number of files.
pub open spec fn file_index(files: Seq<FileState>, path: Seq<char>) -> int {
    if exists|i: int| 0 <= i < files.len() && (#[trigger] files[i]).path == path {
        choose|i: int|
            0 <= i < files.len() && (#[trigger] files[i]).path == path && forall|j: int|
                0 <= j < i ==> (#[trigger] files[j]).path != path
    } else {
        files.len() as int
    }
}

/// Reading a new file from its start, into a buffer that can hold them,
/// gives back the bytes written to it.
pub proof fn lemma_write_then_read_back(path: Seq<char>, bytes: Seq<u8>, buf: Seq<u8>)
    requires
        buf.len() >= bytes.len(),
    ensures
        ({
            let f = after_write(FileState { path, content: Seq::empty(), cursor: 0 }, bytes);
            &&& read_count(f, buf.len()) == bytes.len()
            &&& read_into(f, buf).take(bytes.len() as int) == bytes
            &&& after_read(f, buf.len()).cursor == f.content.len()
        }),
{
    let f = after_write(FileState { path, content: Seq::empty(), cursor: 0 }, bytes);
    assert(f.content =~= bytes);
    assert(read_into(f, buf).take(bytes.len() as int) =~= bytes);
}

impl InMemoryFile {
    spec fn state(&self) -> FileState {
        FileState { path: self.path@, content: self.content@, cursor: self.cursor as nat }
    }

    fn read(&mut self, buf: &mut [u8]) -> (n: usize)
        requires
            old(self).cursor <= old(self).content@.len(),
        ensures
            n == read_count(old(self).state(), old(buf)@.len()),
            final(buf)@ == read_into(old(self).state(), old(buf)@),
            final(self).state() == after_read(old(self).state(), old(buf)@.len()),
            final(self).cursor <= final(self).content@.len(),
    {
        let left = self.content.len() - self.cursor;
        let n = if buf.len() < left { buf.len() } else { left };
        let ghost f = self.state();
        let ghost b = buf@;
        let mut k: usize = 0;
        while k < n
            invariant
                n == read_count(f, b.len()),
                f == self.state(),
                self.cursor + n <= self.content@.len(),
                self.content@.len() <= usize::MAX,
                k <= n,
                n <= buf@.len(),
                buf@.len() == b.len(),
                forall|j: int| 0 <= j < k ==> buf@[j] == f.content[f.cursor + j],
                forall|j: int| k <= j < buf@.len() ==> buf@[j] == b[j],
            decreases n - k,
        {
            buf[k] = self.content[self.cursor + k];
            k = k + 1;
        }
        assert(buf@ =~= read_into(f, b));
        self.cursor = self.cursor + n;
        n
    }

    fn write(&mut self, buf: &[u8]) -> (n: usize)
        ensures
            n == buf@.len(),
            final(self).state() == after_write(old(self).state(), buf@),
            old(self).cursor <= old(self).content@.len() ==> final(self).cursor <= final(self).content@.len(),
    {
        self.content.extend_from_slice(buf);
        assert(self.content@ =~= old(self).content@ + buf@);
        buf.len()
    }
}

/// Files held in memory and the files that are open.
pub struct FileManager {
    files: Vec<InMemoryFile>,
    open_files: FileArena,
}

impl FileManager {
    /// The files, in the order in which they were made.
    pub closed spec fn files(&self) -> Seq<FileState> {
        self.files@.map_values(|f: InMemoryFile| f.state())
    }

    /// The open files.
    pub closed spec fn open_files(&self) -> FileArena {
        self.open_files
    }

    pub closed spec fn wf(&self) -> bool {
        &&& self.open_files.wf()
        &&& forall|i: int|
            0 <= i < self.open_files.slot_count() ==> (#[trigger] self.open_files.entries()[i] matches Some(e)
                ==> e.0 < self.files@.len())
        &&& forall|i: int| 0 <= i < self.files@.len() ==> (#[trigger] self.files@[i]).cursor <= self.files@[i].content@.len()
    }

    /// No files, none open.
    pub fn new() -> (manager: Self)
        ensures
            manager.wf(),
            manager.files() == Seq::<FileState>::empty(),
            manager.open_files().has_room(),
            forall|h: FileHandle| #[trigger] manager.open_files().lookup(h) is None,
    {
        let manager = FileManager { files: Vec::new(), open_files: FileArena::new(10) };
        assert(manager.files() =~= Seq::<FileState>::empty());
        manager
    }

    /// Whether another file can be opened.
    pub fn has_room(&self) -> (room: bool)
        ensures
            room == self.open_files().has_room(),
    {
        self.open_files.room_left()
    }

    /// Index of the first file whose path is `path`, if any.
    fn find_file(&self, path: &String) -> (found: Option<usize>)
        ensures
            match found {
                Some(i) => i == file_index(self.files(), path@) && i < self.files().len(),
                None => file_index(self.files(), path@) == self.files().len(),
            },
    {
        let mut i: usize = 0;
        while i < self.files.len()
            invariant
                i <= self.files@.len(),
                forall|j: int| 0 <= j < i ==> (#[trigger] self.files()[j]).path != path@,
            decreases self.files@.len() - i,
        {
            if self.files[i].path == *path {
                assert(self.files()[i as int].path == path@);
                proof {
                    let fs = self.files();
                    let w = file_index(fs, path@);
                    assert(0 <= w < fs.len() && fs[w].path == path@ && forall|j: int| 0 <= j < w ==> (#[trigger] fs[j]).path != path@);
                    if w < i {
                    } else if w > i {
                        assert(fs[i as int].path != path@);
                    }
                }
                return Some(i);
            }
            i = i + 1;
        }
        None
    }

    /// Opens the file at `path`, making an empty one when there is none;
    /// its descriptor is its index among the files.
    pub fn open(&mut self, path: &str) -> (result: Result<FileHandle, FileError>)
        requires
            old(self).wf(),
            old(self).open_files().has_room(),
        ensures
            final(self).wf(),
            ({
                let i = file_index(old(self).files(), path@);
                &&& final(self).files() == if i < old(self).files().len() {
                    old(self).files()
                } else {
                    old(self).files().push(FileState { path: path@, content: Seq::empty(), cursor: 0 })
                }
                &&& result is Ok
                &&& old(self).open_files().lookup(result->Ok_0) is None
                &&& final(self).open_files().lookup(result->Ok_0) == Some((i as usize, FileDescriptor(i as u64)))
            }),
            final(self).open_files().handle_ok(result->Ok_0),
            forall|h: FileHandle| h != result->Ok_0 ==> #[trigger] final(self).open_files().lookup(h) == old(self).open_files().lookup(h),
            forall|h: FileHandle| old(self).open_files().handle_ok(h) ==> #[trigger] final(self).open_files().handle_ok(h),
    {
        let owned = path.to_owned();
        let index = match self.find_file(&owned) {
            Some(i) => i,
            None => {
                let ghost before = self.files();
                self.files.push(InMemoryFile { path: owned, content: Vec::new(), cursor: 0 });
                assert(self.files() =~= before.push(FileState { path: path@, content: Seq::empty(), cursor: 0 }));
                self.files.len() - 1
            },
        };
        let fd = FileDescriptor(index as u64);
        let ghost arena_before = self.open_files;
        let handle = self.open_files.add((index, fd));
        proof {
            assert forall|i: int|
                0 <= i < self.open_files.slot_count() implies (#[trigger] self.open_files.entries()[i] matches Some(e)
                    ==> e.0 < self.files@.len()) by {
                if i != handle.index && i < arena_before.slot_count() {
                    assert(self.open_files.entries()[i] == arena_before.entries()[i]);
                }
            }
        }
        Ok(handle)
    }

    /// Closes the file that `handle` names; `InvalidDescriptor` when it
    /// names none.
    pub fn close(&mut self, handle: FileHandle) -> (result: Result<(), FileError>)
        requires
            old(self).wf(),
            old(self).open_files().handle_ok(handle),
            old(self).open_files().lookup(handle) is Some ==> handle.generation < 255,
        ensures
            final(self).wf(),
            final(self).files() == old(self).files(),
            final(self).open_files().lookup(handle) is None,
            final(self).open_files().handle_ok(handle),
            forall|h: FileHandle| h != handle ==> #[trigger] final(self).open_files().lookup(h) == old(self).open_files().lookup(h),
            result is Ok <==> old(self).open_files().lookup(handle) is Some,
            result matches Err(e) ==> e == FileError::InvalidDescriptor,
    {
        let ghost arena_before = self.open_files;
        let result = self.open_files.remove(handle);
        proof {
            assert forall|i: int|
                0 <= i < self.open_files.slot_count() implies (#[trigger] self.open_files.entries()[i] matches Some(e)
                    ==> e.0 < self.files@.len()) by {
                assert(self.open_files.entries()[i] is None || self.open_files.entries()[i] == arena_before.entries()[i]);
            }
        }
        match result {
            Ok(_) => Ok(()),
            Err(_) => Err(FileError::InvalidDescriptor),
        }
    }

    /// Reads from the cursor of the file that `handle` names into `buf`: as
    /// many bytes as fit, up to the end of the file. Returns how many;
    /// `InvalidDescriptor` when the handle names no open file.
    pub fn read(&mut self, handle: FileHandle, buf: &mut [u8]) -> (result: Result<usize, FileError>)
        requires
            old(self).wf(),
            old(self).open_files().handle_ok(handle),
        ensures
            final(self).wf(),
            final(self).open_files() == old(self).open_files(),
            match old(self).open_files().lookup(handle) {
                None => result == Err::<usize, FileError>(FileError::InvalidDescriptor) && final(self).files()
                    == old(self).files() && final(buf)@ == old(buf)@,
                Some(e) => {
                    let f = old(self).files()[e.0 as int];
                    &&& result == Ok::<usize, FileError>(read_count(f, old(buf)@.len()) as usize)
                    &&& final(buf)@ == read_into(f, old(buf)@)
                    &&& final(self).files() == old(self).files().update(e.0 as int, after_read(f, old(buf)@.len()))
                },
            },
    {
        let index = match self.open_files.borrow(handle) {
            Ok(entry) => entry.0,
            Err(_) => {
                return Err(FileError::InvalidDescriptor);
            },
        };
        proof {
            self.open_files.lemma_lookup_entry(handle);
            let i = handle.index as int;
            assert(self.open_files.entries()[i] is Some);
        }
        let ghost before = self.files@;
        let n = self.files[index].read(buf);
        proof {
            assert(self.files() =~= old(self).files().update(index as int, after_read(old(self).files()[index as int], old(buf)@.len())));
        }
        Ok(n)
    }

    /// Appends `buf` to the file that `handle` names and returns how many
    /// bytes were written; `InvalidDescriptor` when the handle names no open
    /// file.
    pub fn write(&mut self, handle: FileHandle, buf: &[u8]) -> (result: Result<usize, FileError>)
        requires
            old(self).wf(),
            old(self).open_files().handle_ok(handle),
        ensures
            final(self).wf(),
            final(self).open_files() == old(self).open_files(),
            match old(self).open_files().lookup(handle) {
                None => result == Err::<usize, FileError>(FileError::InvalidDescriptor) && final(self).files()
                    == old(self).files(),
                Some(e) => {
                    &&& result == Ok::<usize, FileError>(buf@.len() as usize)
                    &&& final(self).files() == old(self).files().update(
                        e.0 as int,
                        after_write(old(self).files()[e.0 as int], buf@),
                    )
                },
            },
    {
        let index = match self.open_files.borrow(handle) {
            Ok(entry) => entry.0,
            Err(_) => {
                return Err(FileError::InvalidDescriptor);
            },
        };
        proof {
            self.open_files.lemma_lookup_entry(handle);
            let i = handle.index as int;
            assert(self.open_files.entries()[i] is Some);
        }
        let n = self.files[index].write(buf);
        proof {
            assert(self.files() =~= old(self).files().update(index as int, after_write(old(self).files()[index as int], buf@)));
        }
        Ok(n)
    }
}

} // verus!
