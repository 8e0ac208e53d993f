//! Virtual file system.
//!
//! The storage engine reaches the outside world only through this surface:
//! named files holding a byte string, addressed by offset, with an advisory
//! exclusive lock per open handle. Two backends satisfy the same semantics:
//! an in-memory one, verified here, in which every handle to a path shares
//! the path's state; and a host-backed one over the operating system's file
//! primitives, which lives outside the verified library.

use crate::storage::StorageError;
use vstd::prelude::*;
use vstd::string::StringExecFns;

verus! {

/// A named collection of files.
///
/// `open` creates the file when the path is absent and never truncates;
/// `delete` fails on an absent path. A path may be opened any number of
/// times, and every handle observes the same file state.
pub trait FileSystem {
    /// The type of file handles this file system hands out.
    type File;

    /// The type of errors this file system reports.
    type Error;

    /// Opens the file at `path`, creating it empty if it does not exist.
    fn open(&mut self, path: &str) -> Result<Self::File, Self::Error>;

    /// Removes the file at `path`; fails if it is absent.
    fn delete(&mut self, path: &str) -> Result<(), Self::Error>;
}

/// One open file: a byte string addressed by offset.
///
/// Reads fail beyond the current size; writes extend the file as needed,
/// filling any gap with the backend's fill byte, and `truncate` to a larger
/// size extends with the same fill. The lock operations maintain one
/// advisory exclusive lock per file.
pub trait File {
    /// The type of errors this file reports.
    type Error;

    /// Returns the size of the file in bytes.
    fn size(&mut self) -> Result<u64, Self::Error>;

    /// Sets the size of the file to exactly `size` bytes.
    fn truncate(&mut self, size: u64) -> Result<(), Self::Error>;

    /// Fills `buf` with the `buf.len()` bytes starting at `offset`.
    fn read(&mut self, offset: u64, buf: &mut Vec<u8>) -> Result<(), Self::Error>;

    /// Writes all of `buf` at `offset`, extending the file as needed.
    fn write(&mut self, offset: u64, buf: &[u8]) -> Result<(), Self::Error>;

    /// Durably flushes in-flight writes.
    fn sync(&mut self) -> Result<(), Self::Error>;

    /// Acquires the advisory exclusive lock without blocking.
    fn try_lock(&mut self) -> Result<(), Self::Error>;

    /// Acquires the advisory exclusive lock.
    fn lock(&mut self) -> Result<(), Self::Error>;

    /// Releases the advisory exclusive lock; fails if it is not held.
    fn unlock(&mut self) -> Result<(), Self::Error>;
}

/// The byte written into the gap when a write or a truncate extends an
/// in-memory file beyond its previous size.
pub open spec fn fill_byte() -> u8 {
    0xCC
}

/// Mathematical model of one file: its bytes and whether its advisory lock
/// is held.
pub ghost struct FileModel {
    pub bytes: Seq<u8>,
    pub locked: bool,
}

/// Backing state of one in-memory file.
struct MemoryFileData {
    data: Vec<u8>,
    locked: bool,
}

/// In-memory implementation of the file-system semantics.
///
/// Files live in an arena that only grows; a path binds to an arena slot,
/// and `delete` removes the binding while handles already pointing at the
/// slot keep working, exactly as handles over a removed on-disk file do.
/// Because every handle to a path names the same slot, handles share state,
/// so the file operations take the file system itself as an argument.
pub struct MemoryFileSystem {
    names: Vec<String>,
    ids: Vec<usize>,
    files: Vec<MemoryFileData>,
}

/// Handle to an in-memory file: a stable index into the arena of its
/// [`MemoryFileSystem`].
#[derive(Clone, Copy)]
pub struct MemoryFile {
    handle: usize,
}

impl MemoryFile {
    /// The arena slot this handle names. Two handles with equal identity
    /// observe and mutate the same file.
    pub closed spec fn id(&self) -> int {
        self.handle as int
    }
}

impl MemoryFileSystem {
    /// Internal consistency: bindings are in range, and no path or slot is
    /// bound twice.
    pub closed spec fn wf(&self) -> bool {
        &&& self.names@.len() == self.ids@.len()
        &&& (forall|i: int|
            0 <= i < self.ids@.len() ==> (#[trigger] self.ids@[i] as int) < self.files@.len())
        &&& (forall|i: int, j: int|
            0 <= i < j < self.ids@.len() ==> #[trigger] self.names@[i]@ != #[trigger] self.names@[j]@)
        &&& (forall|i: int, j: int|
            0 <= i < j < self.ids@.len() ==> #[trigger] self.ids@[i] != #[trigger] self.ids@[j])
    }

    /// Whether `id` names a slot of the arena.
    pub closed spec fn valid_id(&self, id: int) -> bool {
        0 <= id < self.files@.len()
    }

    /// The model of the file in slot `id`.
    pub closed spec fn model_of(&self, id: int) -> FileModel {
        FileModel { bytes: self.files@[id].data@, locked: self.files@[id].locked }
    }

    /// The binding index of `path` among the live names, if any.
    spec fn name_index(&self, path: Seq<char>) -> int {
        choose|i: int| 0 <= i < self.names@.len() && (#[trigger] self.names@[i])@ == path
    }

    /// The slot `path` is bound to, if the path is live.
    pub closed spec fn path_id(&self, path: Seq<char>) -> Option<int> {
        if exists|i: int| 0 <= i < self.names@.len() && (#[trigger] self.names@[i])@ == path {
            Some(self.ids@[self.name_index(path)] as int)
        } else {
            None
        }
    }

    /// Whether `path` names a live file.
    pub open spec fn bound(&self, path: Seq<char>) -> bool {
        self.path_id(path) is Some
    }

    /// An empty file system: no files, no bindings.
    pub fn new() -> (r: MemoryFileSystem)
        ensures
            r.wf(),
            forall|q: Seq<char>| r.path_id(q) is None,
            forall|i: int| !r.valid_id(i),
    {
        MemoryFileSystem { names: Vec::new(), ids: Vec::new(), files: Vec::new() }
    }
}

impl Default for MemoryFileSystem {
    /// An empty file system: no files, no bindings.
    fn default() -> (r: MemoryFileSystem)
        ensures
            r.wf(),
            forall|q: Seq<char>| r.path_id(q) is None,
            forall|i: int| !r.valid_id(i),
    {
        MemoryFileSystem::new()
    }
}

impl MemoryFileSystem {
    /// Opens `path`, creating an empty file if the path is not bound.
    ///
    /// Opening never fails: a bound path hands back a handle to its slot and
    /// changes nothing, and an unbound path binds a fresh empty file, leaving
    /// every other path and every existing file untouched.
    pub fn open(&mut self, path: &str) -> (r: Result<MemoryFile, StorageError>)
        requires
            old(self).wf(),
        ensures
            final(self).wf(),
            r is Ok,
            r matches Ok(f) ==> {
                &&& final(self).valid_id(f.id())
                &&& final(self).path_id(path@) == Some(f.id())
                &&& match old(self).path_id(path@) {
                    Some(i) => f.id() == i && *final(self) == *old(self),
                    None => {
                        &&& !old(self).valid_id(f.id())
                        &&& final(self).model_of(f.id()) == (FileModel {
                            bytes: Seq::<u8>::empty(),
                            locked: false,
                        })
                        &&& forall|q: Seq<char>|
                            q != path@ ==> final(self).path_id(q) == old(self).path_id(q)
                        &&& forall|i: int|
                            #[trigger] old(self).valid_id(i) ==> final(self).valid_id(i)
                                && final(self).model_of(i) == old(self).model_of(i)
                    },
                }
            },
    {
        let p = String::from_str(path);
        let n = self.names.len();
        let mut i: usize = 0;
        while i < n
            invariant
                old(self).wf(),
                *self == *old(self),
                n == self.names@.len(),
                i <= n,
                p@ == path@,
                forall|j: int| 0 <= j < i ==> (#[trigger] self.names@[j])@ != path@,
            decreases n - i,
        {
            if self.names[i] == p {
                let id = self.ids[i];
                proof {
                    assert(self.names@[i as int]@ == path@);
                    let k = self.name_index(path@);
                    assert(0 <= k < self.names@.len() && self.names@[k]@ == path@);
                    assert(k == i);
                }
                return Ok(MemoryFile { handle: id });
            }
            i += 1;
        }
        let id = self.files.len();
        self.files.push(MemoryFileData { data: Vec::new(), locked: false });
        self.names.push(p);
        self.ids.push(id);
        proof {
            let m = self.names@.len() - 1;
            assert(self.names@[m]@ == path@);
            assert(forall|j: int| 0 <= j < m ==> (#[trigger] self.names@[j])@ != path@);
            let k = self.name_index(path@);
            assert(0 <= k < self.names@.len() && self.names@[k]@ == path@);
            assert(k == m);
            assert(self.path_id(path@) == Some(id as int));
            assert forall|q: Seq<char>| q != path@ implies final(self).path_id(q) == old(
                self,
            ).path_id(q) by {
                if exists|j: int|
                    0 <= j < self.names@.len() && (#[trigger] self.names@[j])@ == q {
                    let j = self.name_index(q);
                    assert(0 <= j < self.names@.len() && self.names@[j]@ == q);
                    assert(j != m);
                    assert(old(self).names@[j]@ == q);
                    let j2 = old(self).name_index(q);
                    assert(0 <= j2 < old(self).names@.len() && old(self).names@[j2]@ == q);
                    assert(self.names@[j2]@ == q);
                    assert(j2 == j);
                } else {
                    assert forall|j: int| 0 <= j < old(self).names@.len() implies (
                    #[trigger] old(self).names@[j])@ != q by {
                        assert(self.names@[j] == old(self).names@[j]);
                    }
                }
            }
        }
        Ok(MemoryFile { handle: id })
    }

    /// Removes the binding of `path`.
    ///
    /// Fails with `NotFound` when the path is not bound, leaving everything
    /// unchanged. On success only the binding goes away: handles already
    /// opened on the path keep observing the same file.
    pub fn delete(&mut self, path: &str) -> (r: Result<(), StorageError>)
        requires
            old(self).wf(),
        ensures
            final(self).wf(),
            r is Ok <==> old(self).bound(path@),
            r is Err ==> *final(self) == *old(self) && r == Err::<(), StorageError>(
                StorageError::NotFound,
            ),
            r is Ok ==> {
                &&& final(self).path_id(path@) is None
                &&& forall|q: Seq<char>|
                    q != path@ ==> final(self).path_id(q) == old(self).path_id(q)
                &&& forall|i: int|
                    #[trigger] old(self).valid_id(i) ==> final(self).valid_id(i)
                        && final(self).model_of(i) == old(self).model_of(i)
            },
    {
        let n = self.names.len();
        let mut i: usize = 0;
        while i < n
            invariant
                old(self).wf(),
                *self == *old(self),
                n == self.names@.len(),
                i <= n,
                forall|j: int| 0 <= j < i ==> (#[trigger] self.names@[j])@ != path@,
            decreases n - i,
        {
            let hit = {
                let q = String::from_str(path);
                self.names[i] == q
            };
            if hit {
                proof {
                    assert(self.names@[i as int]@ == path@);
                }
                self.names.swap_remove(i);
                self.ids.swap_remove(i);
                proof {
                    let pre = old(self);
                    let m = self.names@.len();
                    assert(self.names@ == pre.names@.update(i as int, pre.names@[n - 1]).take(
                        m as int,
                    ));
                    assert(self.ids@ == pre.ids@.update(i as int, pre.ids@[n - 1]).take(
                        m as int,
                    ));
                    assert forall|j: int| 0 <= j < m implies (#[trigger] self.names@[j])@
                        != path@ by {
                        if j == i {
                            assert(self.names@[j] == pre.names@[n - 1]);
                            if i < n - 1 {
                                assert(pre.names@[n - 1]@ != path@);
                            }
                        } else {
                            assert(self.names@[j] == pre.names@[j]);
                            assert(pre.names@[j]@ != pre.names@[i as int]@);
                        }
                    }
                    assert forall|q: Seq<char>| q != path@ implies final(self).path_id(q)
                        == pre.path_id(q) by {
                        if exists|j: int|
                            0 <= j < self.names@.len() && (#[trigger] self.names@[j])@ == q {
                            let j = self.name_index(q);
                            assert(0 <= j < m && self.names@[j]@ == q);
                            let j0: int = if j == i {
                                n - 1
                            } else {
                                j
                            };
                            assert(pre.names@[j0]@ == q);
                            let j2 = pre.name_index(q);
                            assert(0 <= j2 < pre.names@.len() && pre.names@[j2]@ == q);
                            assert(j2 == j0);
                            assert(self.ids@[j] == pre.ids@[j0]);
                        } else {
                            assert forall|j: int| 0 <= j < pre.names@.len() implies (
                            #[trigger] pre.names@[j])@ != q by {
                                if pre.names@[j]@ == q {
                                    assert(j != i);
                                    if j == n - 1 {
                                        assert(self.names@[i as int]@ == q);
                                    } else {
                                        assert(self.names@[j]@ == q);
                                    }
                                }
                            }
                        }
                    }
                    if exists|j: int|
                        0 <= j < self.names@.len() && (#[trigger] self.names@[j])@ == path@ {
                        let j = self.name_index(path@);
                        assert(0 <= j < m && self.names@[j]@ == path@);
                        assert(false);
                    }
                }
                return Ok(());
            }
            i += 1;
        }
        Err(StorageError::NotFound)
    }
}

/// File systems with the same bindings resolve every path alike.
proof fn lemma_same_bindings(a: &MemoryFileSystem, b: &MemoryFileSystem)
    requires
        a.wf(),
        a.names@ == b.names@,
        a.ids@ == b.ids@,
    ensures
        forall|q: Seq<char>| a.path_id(q) == b.path_id(q),
{
    assert forall|q: Seq<char>| a.path_id(q) == b.path_id(q) by {
        if exists|j: int| 0 <= j < a.names@.len() && (#[trigger] a.names@[j])@ == q {
            let j = a.name_index(q);
            assert(0 <= j < a.names@.len() && a.names@[j]@ == q);
            assert(b.names@[j]@ == q);
            let k = b.name_index(q);
            assert(0 <= k < b.names@.len() && b.names@[k]@ == q);
            assert(a.names@[k]@ == q);
            assert(k == j);
        } else {
            assert forall|j: int| 0 <= j < b.names@.len() implies (#[trigger] b.names@[j])@
                != q by {
                assert(a.names@[j] == b.names@[j]);
            }
        }
    }
}

/// The file contents after writing `buf` at offset `off`: the write wins
/// where it lands, earlier contents stay, and any gap is filled.
pub open spec fn write_bytes(data: Seq<u8>, off: int, buf: Seq<u8>) -> Seq<u8> {
    let m = if data.len() >= off + buf.len() {
        data.len() as int
    } else {
        off + buf.len()
    };
    Seq::new(
        m as nat,
        |i: int|
            if off <= i < off + buf.len() {
                buf[i - off]
            } else if i < data.len() {
                data[i]
            } else {
                fill_byte()
            },
    )
}

/// The file contents after setting the length to `n`: a prefix when
/// shrinking, the old contents plus fill when extending.
pub open spec fn truncate_bytes(data: Seq<u8>, n: int) -> Seq<u8> {
    Seq::new(
        n as nat,
        |i: int|
            if i < data.len() {
                data[i]
            } else {
                fill_byte()
            },
    )
}

/// Writes `buf` into `data` at `off`, extending and filling as needed.
fn write_into(data: &mut Vec<u8>, off: usize, buf: &[u8])
    requires
        off + buf@.len() <= usize::MAX,
    ensures
        final(data)@ == write_bytes(old(data)@, off as int, buf@),
{
    let ghost orig = data@;
    proof {
        assert(truncate_bytes(orig, orig.len() as int) =~= orig);
    }
    while data.len() < off
        invariant
            orig.len() <= data@.len(),
            data@ == truncate_bytes(orig, data@.len() as int),
            data@.len() <= off || data@.len() == orig.len(),
        decreases off - data@.len(),
    {
        data.push(0xCC);
        proof {
            assert(data@ =~= truncate_bytes(orig, data@.len() as int));
        }
    }
    let ghost padded = data@;
    let mut i: usize = 0;
    while i < buf.len()
        invariant
            i <= buf@.len(),
            off + buf@.len() <= usize::MAX,
            padded == truncate_bytes(orig, padded.len() as int),
            padded.len() == if orig.len() >= off {
                orig.len() as int
            } else {
                off as int
            },
            data@.len() == if padded.len() >= off + i {
                padded.len() as int
            } else {
                off + i
            },
            forall|j: int|
                0 <= j < data@.len() && off <= j < off + i ==> data@[j] == buf@[j - off],
            forall|j: int|
                0 <= j < data@.len() && !(off <= j < off + i) ==> j < padded.len() && data@[j]
                    == padded[j],
        decreases buf@.len() - i,
    {
        let pos = off + i;
        if pos < data.len() {
            data[pos] = buf[i];
        } else {
            data.push(buf[i]);
        }
        i += 1;
    }
    proof {
        let w = write_bytes(orig, off as int, buf@);
        assert(data@.len() == w.len());
        assert forall|j: int| 0 <= j < data@.len() implies data@[j] == w[j] by {
            if off <= j < off + buf@.len() {
            } else {
                assert(data@[j] == padded[j]);
            }
        }
        assert(data@ =~= w);
    }
}

/// Sets the length of `data` to `n`, filling on extension.
fn truncate_into(data: &mut Vec<u8>, n: usize)
    ensures
        final(data)@ == truncate_bytes(old(data)@, n as int),
{
    let ghost orig = data@;
    if n <= data.len() {
        data.truncate(n);
        proof {
            assert(data@ =~= truncate_bytes(orig, n as int));
        }
    } else {
        while data.len() < n
            invariant
                orig.len() <= data@.len() <= n,
                data@ == truncate_bytes(orig, data@.len() as int),
            decreases n - data@.len(),
        {
            data.push(0xCC);
            proof {
                assert(data@ =~= truncate_bytes(orig, data@.len() as int));
            }
        }
    }
}

impl MemoryFile {
    /// The size of the file in bytes.
    pub fn size(&self, fs: &MemoryFileSystem) -> (r: Result<u64, StorageError>)
        requires
            fs.wf(),
            fs.valid_id(self.id()),
        ensures
            r matches Ok(n) ==> n == fs.model_of(self.id()).bytes.len() && n <= usize::MAX,
            r is Ok,
    {
        Ok(fs.files[self.handle].data.len() as u64)
    }

    /// Sets the size of the file to exactly `size` bytes: a shrink keeps the
    /// prefix, an extension exposes fill bytes after the old contents.
    pub fn truncate(&self, fs: &mut MemoryFileSystem, size: u64) -> (r: Result<
        (),
        StorageError,
    >)
        requires
            old(fs).wf(),
            old(fs).valid_id(self.id()),
            size <= usize::MAX,
        ensures
            final(fs).wf(),
            r is Ok,
            final(fs).model_of(self.id()) == (FileModel {
                bytes: truncate_bytes(old(fs).model_of(self.id()).bytes, size as int),
                locked: old(fs).model_of(self.id()).locked,
            }),
            forall|i: int|
                #[trigger] old(fs).valid_id(i) ==> final(fs).valid_id(i),
            forall|i: int|
                old(fs).valid_id(i) && i != self.id() ==> final(fs).model_of(i) == old(
                    fs,
                ).model_of(i),
            forall|q: Seq<char>| final(fs).path_id(q) == old(fs).path_id(q),
    {
        let fd = &mut fs.files[self.handle];
        truncate_into(&mut fd.data, size as usize);
        proof {
            lemma_same_bindings(old(fs), fs);
        }
        Ok(())
    }

    /// Fills `buf` with the `buf.len()` bytes starting at `offset`.
    ///
    /// Fails with `IoFailure`, leaving `buf` unchanged, exactly when the
    /// requested range reaches past the current size.
    pub fn read(&self, fs: &MemoryFileSystem, offset: u64, buf: &mut Vec<u8>) -> (r: Result<
        (),
        StorageError,
    >)
        requires
            fs.wf(),
            fs.valid_id(self.id()),
        ensures
            final(buf)@.len() == old(buf)@.len(),
            r is Ok <==> offset + old(buf)@.len() <= fs.model_of(self.id()).bytes.len(),
            r matches Ok(u) ==> final(buf)@ == fs.model_of(self.id()).bytes.subrange(
                offset as int,
                offset + old(buf)@.len(),
            ),
            r is Err ==> final(buf)@ == old(buf)@ && r == Err::<(), StorageError>(
                StorageError::IoFailure,
            ),
    {
        let len = fs.files[self.handle].data.len();
        if offset > len as u64 || buf.len() as u64 > len as u64 - offset {
            return Err(StorageError::IoFailure);
        }
        let off = offset as usize;
        let n = buf.len();
        let mut i: usize = 0;
        while i < n
            invariant
                fs.wf(),
                fs.valid_id(self.id()),
                n == buf@.len(),
                n == old(buf)@.len(),
                i <= n,
                off == offset,
                off + n <= usize::MAX,
                off + n <= fs.model_of(self.id()).bytes.len(),
                forall|j: int|
                    0 <= j < i ==> buf@[j] == fs.model_of(self.id()).bytes[off + j],
                forall|j: int| i <= j < n ==> buf@[j] == old(buf)@[j],
            decreases n - i,
        {
            let b = fs.files[self.handle].data[off + i];
            buf[i] = b;
            i += 1;
        }
        proof {
            assert(final(buf)@ =~= fs.model_of(self.id()).bytes.subrange(
                offset as int,
                offset + old(buf)@.len(),
            ));
        }
        Ok(())
    }

    /// Writes all of `buf` at `offset`, extending the file as needed and
    /// filling any gap between the old end and `offset`.
    pub fn write(&self, fs: &mut MemoryFileSystem, offset: u64, buf: &[u8]) -> (r: Result<
        (),
        StorageError,
    >)
        requires
            old(fs).wf(),
            old(fs).valid_id(self.id()),
            offset + buf@.len() <= usize::MAX,
        ensures
            final(fs).wf(),
            r is Ok,
            final(fs).model_of(self.id()) == (FileModel {
                bytes: write_bytes(old(fs).model_of(self.id()).bytes, offset as int, buf@),
                locked: old(fs).model_of(self.id()).locked,
            }),
            forall|i: int|
                #[trigger] old(fs).valid_id(i) ==> final(fs).valid_id(i),
            forall|i: int|
                old(fs).valid_id(i) && i != self.id() ==> final(fs).model_of(i) == old(
                    fs,
                ).model_of(i),
            forall|q: Seq<char>| final(fs).path_id(q) == old(fs).path_id(q),
    {
        let fd = &mut fs.files[self.handle];
        write_into(&mut fd.data, offset as usize, buf);
        proof {
            lemma_same_bindings(old(fs), fs);
        }
        Ok(())
    }

    /// Durably flushes in-flight writes; nothing is buffered in memory, so
    /// nothing changes.
    pub fn sync(&self, fs: &mut MemoryFileSystem) -> (r: Result<(), StorageError>)
        requires
            old(fs).wf(),
            old(fs).valid_id(self.id()),
        ensures
            *final(fs) == *old(fs),
            r is Ok,
    {
        Ok(())
    }

    /// Acquires the advisory exclusive lock without blocking, failing with
    /// `LockConflict` exactly when some handle already holds it.
    pub fn try_lock(&self, fs: &mut MemoryFileSystem) -> (r: Result<(), StorageError>)
        requires
            old(fs).wf(),
            old(fs).valid_id(self.id()),
        ensures
            final(fs).wf(),
            r is Ok <==> !old(fs).model_of(self.id()).locked,
            r is Err ==> *final(fs) == *old(fs) && r == Err::<(), StorageError>(
                StorageError::LockConflict,
            ),
            r is Ok ==> final(fs).model_of(self.id()) == (FileModel {
                bytes: old(fs).model_of(self.id()).bytes,
                locked: true,
            }),
            forall|i: int|
                #[trigger] old(fs).valid_id(i) ==> final(fs).valid_id(i),
            forall|i: int|
                old(fs).valid_id(i) && i != self.id() ==> final(fs).model_of(i) == old(
                    fs,
                ).model_of(i),
            forall|q: Seq<char>| final(fs).path_id(q) == old(fs).path_id(q),
    {
        if fs.files[self.handle].locked {
            proof {
                lemma_same_bindings(old(fs), fs);
            }
            Err(StorageError::LockConflict)
        } else {
            let fd = &mut fs.files[self.handle];
            fd.locked = true;
            proof {
                lemma_same_bindings(old(fs), fs);
            }
            Ok(())
        }
    }

    /// Acquires the advisory exclusive lock. The in-memory backend never
    /// blocks: a held lock fails immediately with `LockConflict`.
    pub fn lock(&self, fs: &mut MemoryFileSystem) -> (r: Result<(), StorageError>)
        requires
            old(fs).wf(),
            old(fs).valid_id(self.id()),
        ensures
            final(fs).wf(),
            r is Ok <==> !old(fs).model_of(self.id()).locked,
            r is Err ==> *final(fs) == *old(fs) && r == Err::<(), StorageError>(
                StorageError::LockConflict,
            ),
            r is Ok ==> final(fs).model_of(self.id()) == (FileModel {
                bytes: old(fs).model_of(self.id()).bytes,
                locked: true,
            }),
            forall|i: int|
                #[trigger] old(fs).valid_id(i) ==> final(fs).valid_id(i),
            forall|i: int|
                old(fs).valid_id(i) && i != self.id() ==> final(fs).model_of(i) == old(
                    fs,
                ).model_of(i),
            forall|q: Seq<char>| final(fs).path_id(q) == old(fs).path_id(q),
    {
        self.try_lock(fs)
    }

    /// Releases the advisory exclusive lock, failing with `LockConflict`
    /// exactly when it is not held.
    pub fn unlock(&self, fs: &mut MemoryFileSystem) -> (r: Result<(), StorageError>)
        requires
            old(fs).wf(),
            old(fs).valid_id(self.id()),
        ensures
            final(fs).wf(),
            r is Ok <==> old(fs).model_of(self.id()).locked,
            r is Err ==> *final(fs) == *old(fs) && r == Err::<(), StorageError>(
                StorageError::LockConflict,
            ),
            r is Ok ==> final(fs).model_of(self.id()) == (FileModel {
                bytes: old(fs).model_of(self.id()).bytes,
                locked: false,
            }),
            forall|i: int|
                #[trigger] old(fs).valid_id(i) ==> final(fs).valid_id(i),
            forall|i: int|
                old(fs).valid_id(i) && i != self.id() ==> final(fs).model_of(i) == old(
                    fs,
                ).model_of(i),
            forall|q: Seq<char>| final(fs).path_id(q) == old(fs).path_id(q),
    {
        if fs.files[self.handle].locked {
            let fd = &mut fs.files[self.handle];
            fd.locked = false;
            proof {
                lemma_same_bindings(old(fs), fs);
            }
            Ok(())
        } else {
            proof {
                lemma_same_bindings(old(fs), fs);
            }
            Err(StorageError::LockConflict)
        }
    }
}

} // verus!
