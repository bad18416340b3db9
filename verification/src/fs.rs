//! The in-memory filesystem skeleton: inodes with metadata, file
//! handles, and the table mapping descriptors to open files.

use vstd::prelude::*;

verus! {

/// What kind of node an inode is.
#[derive(Clone, Copy, Debug, PartialEq, Eq, Structural)]
pub struct FileTypeFlags {
    /// The kind's flag bits.
    pub bits: u32,
}

impl FileTypeFlags {
    /// A regular file.
    pub fn file() -> (r: FileTypeFlags)
        ensures
            r.bits == 1,
    {
        FileTypeFlags { bits: 1 }
    }

    /// A directory.
    pub fn directory() -> (r: FileTypeFlags)
        ensures
            r.bits == 2,
    {
        FileTypeFlags { bits: 2 }
    }
}

/// How a file is opened: the flag bits of the open call.
#[derive(Clone, Copy, Debug, PartialEq, Eq, Structural)]
pub struct OFlags {
    /// The open-mode bits.
    pub bits: u8,
}

/// Read-only open mode.
pub const O_RDONLY: u8 = 1;

/// Write-only open mode.
pub const O_WRONLY: u8 = 2;

/// Read-write open mode.
pub const O_RDWR: u8 = 4;

/// How a filesystem operation fails.
#[derive(Clone, Copy, Debug, PartialEq, Eq, Structural)]
pub enum FileSystemError {
    /// The node does not support the operation.
    NotSupported,
    /// A node with that name already exists.
    EntryExists,
    /// No node with that name exists.
    EntryNotFound,
    /// No descriptor is free, or the node is in use.
    Busy,
}

/// The bytes of a file, or nothing for a directory.
pub enum FileContents {
    /// A regular file's bytes.
    Content(Vec<u8>),
    /// A node without bytes of its own.
    Empty,
}

/// What an inode reports about itself.
#[derive(Clone, Copy, Debug, PartialEq, Eq, Structural)]
pub struct Metadata {
    /// Unique id of the node.
    pub id: usize,
    /// What kind of node it is.
    pub file_type: FileTypeFlags,
    /// Size of the file's bytes; zero for a directory.
    pub size: usize,
}

impl Metadata {
    /// Metadata from its parts.
    pub fn new(id: usize, file_type: FileTypeFlags, size: usize) -> (r: Metadata)
        ensures
            r == (Metadata { id, file_type, size }),
    {
        Metadata { id, file_type, size }
    }

    /// Whether the node is a directory.
    pub fn is_directory(&self) -> (r: bool)
        ensures
            r == (self.file_type.bits == 2),
    {
        self.file_type.bits == 2
    }

    /// The node's id.
    pub fn id(&self) -> (r: &usize)
        ensures
            r == self.id,
    {
        &self.id
    }

    /// The node's kind.
    pub fn file_type(&self) -> (r: &FileTypeFlags)
        ensures
            r == self.file_type,
    {
        &self.file_type
    }

    /// The node's size in bytes.
    pub fn size(&self) -> (r: &usize)
        ensures
            r == self.size,
    {
        &self.size
    }
}

/// What every inode offers; the RAM filesystem's nodes implement it.
pub trait INode {
    /// The node's metadata.
    fn metadata(&self) -> Result<Metadata, FileSystemError>;

    /// Reads up to `count` bytes from the start into the buffer.
    fn read(&self, count: usize, buffer: &mut Vec<u8>);

    /// Reads up to `count` bytes at `offset` into the buffer.
    fn pread(&self, offset: usize, count: usize, buffer: &mut Vec<u8>);

    /// Writes up to `count` bytes from the buffer to the start.
    fn write(&mut self, count: usize, buffer: &Vec<u8>);

    /// Writes up to `count` bytes from the buffer at `offset`.
    fn pwrite(&mut self, offset: usize, count: usize, buffer: &Vec<u8>);
}

/// A node of the RAM filesystem.
pub struct RamNode {
    /// Unique id of the node.
    pub id: usize,
    /// What kind of node it is.
    pub file_type: FileTypeFlags,
    /// The node's bytes.
    pub contents: FileContents,
}

impl INode for RamNode {
    /// The node's metadata; the size is the byte count of its contents.
    fn metadata(&self) -> (r: Result<Metadata, FileSystemError>)
        ensures
            (match r {
                Ok(m) => m.id == self.id && m.file_type == self.file_type,
                Err(_) => false,
            }),
    {
        let size = match &self.contents {
            FileContents::Content(bytes) => bytes.len(),
            FileContents::Empty => 0,
        };
        Ok(Metadata { id: self.id, file_type: self.file_type, size })
    }

    /// Reads from the start.
    fn read(&self, count: usize, buffer: &mut Vec<u8>) {
        self.pread(0, count, buffer)
    }

    /// Reads up to `count` bytes at `offset`: exactly the bytes
    /// `contents[offset..offset + count]` that exist are appended to the
    /// buffer.
    fn pread(&self, offset: usize, count: usize, buffer: &mut Vec<u8>)
        ensures
            (match self.contents {
                FileContents::Content(bytes) => final(buffer)@ == old(buffer)@ + bytes@.subrange(
                    clamp_range(offset as int, bytes@.len() as int),
                    clamp_range(offset + count, bytes@.len() as int),
                ),
                FileContents::Empty => final(buffer)@ == old(buffer)@,
            }),
    {
        match &self.contents {
            FileContents::Content(bytes) => {
                let n = bytes.len();
                let lo = if offset > n {
                    n
                } else {
                    offset
                };
                let hi = if count > n - lo {
                    n
                } else if lo > n - count {
                    n
                } else {
                    lo + count
                };
                let mut i = lo;
                while i < hi
                    invariant
                        lo <= i <= hi <= bytes@.len(),
                        (match self.contents {
                            FileContents::Content(b) => b == bytes,
                            FileContents::Empty => false,
                        }),
                        buffer@ == old(buffer)@ + bytes@.subrange(lo as int, i as int),
                    decreases hi - i,
                {
                    buffer.push(bytes[i]);
                    proof {
                        assert(old(buffer)@ + bytes@.subrange(lo as int, i as int) + seq![
                            bytes@[i as int]
                        ] =~= old(buffer)@ + bytes@.subrange(lo as int, i + 1));
                    }
                    i = i + 1;
                }
                proof {
                    assert(lo == clamp_range(offset as int, bytes@.len() as int));
                    assert(hi == clamp_range(offset + count, bytes@.len() as int));
                }
            },
            FileContents::Empty => {},
        }
    }

    /// Writes from the start.
    fn write(&mut self, count: usize, buffer: &Vec<u8>) {
        self.pwrite(0, count, buffer)
    }

    /// Writes up to `count` bytes at `offset`: every byte of the file in
    /// `[offset, offset + count)` takes the buffer's byte, as far as both
    /// reach.
    fn pwrite(&mut self, offset: usize, count: usize, buffer: &Vec<u8>)
        ensures
            old(self).id == final(self).id,
            old(self).file_type == final(self).file_type,
            (match (old(self).contents, final(self).contents) {
                (FileContents::Content(obytes), FileContents::Content(nbytes)) => {
                    &&& nbytes@.len() == obytes@.len()
                    &&& forall|k: int|
                        0 <= k < obytes@.len() ==> nbytes@[k] == (if offset <= k < offset + count
                            && k - offset < buffer@.len() {
                            buffer@[k - offset]
                        } else {
                            obytes@[k]
                        })
                },
                (FileContents::Empty, FileContents::Empty) => true,
                _ => false,
            }),
    {
        match &mut self.contents {
            FileContents::Content(bytes) => {
                let n = bytes.len();
                let blen = buffer.len();
                let mut i: usize = 0;
                while i < count
                    invariant
                        i <= count,
                        n == bytes@.len(),
                        blen == buffer@.len(),
                        (match old(self).contents {
                            FileContents::Content(ob) => {
                                &&& bytes@.len() == ob@.len()
                                &&& forall|k: int|
                                    0 <= k < ob@.len() ==> bytes@[k] == (if offset <= k < offset
                                        + i && k - offset < buffer@.len() {
                                        buffer@[k - offset]
                                    } else {
                                        ob@[k]
                                    })
                            },
                            FileContents::Empty => false,
                        }),
                    decreases count - i,
                {
                    if i < blen && offset < n && i < n - offset {
                        bytes.set(offset + i, buffer[i]);
                    }
                    i = i + 1;
                }
            },
            FileContents::Empty => {},
        }
    }
}

/// An index clamped into `[0, len]`.
pub open spec fn clamp_range(v: int, len: int) -> int {
    if v < 0 {
        0
    } else if v > len {
        len
    } else {
        v
    }
}

/// A filesystem: whatever can hand out its root node.
pub trait FileSystem {
    /// Id of the root directory's node.
    fn root_dir(&self) -> usize;
}

/// An open file: a descriptor, a cursor and the node's bytes.
pub struct FileHandle {
    /// The descriptor number.
    pub fd: usize,
    /// The cursor the next read starts at.
    pub offset: usize,
    /// How the file was opened.
    pub flags: OFlags,
    /// The node this handle reads and writes.
    pub inode: RamNode,
}

impl FileHandle {
    /// A handle at cursor zero.
    pub fn new(fd: usize, inode: RamNode, flags: OFlags) -> (r: FileHandle)
        ensures
            r.fd == fd,
            r.offset == 0,
            r.flags == flags,
            r.inode == inode,
    {
        FileHandle { fd, offset: 0, flags, inode }
    }

    /// Reads up to `count` bytes at the cursor into the buffer.
    pub fn read(&self, buffer: &mut Vec<u8>, count: usize)
        ensures
            (match self.inode.contents {
                FileContents::Content(bytes) => final(buffer)@ == old(buffer)@ + bytes@.subrange(
                    clamp_range(self.offset as int, bytes@.len() as int),
                    clamp_range(self.offset + count, bytes@.len() as int),
                ),
                FileContents::Empty => final(buffer)@ == old(buffer)@,
            }),
    {
        self.inode.pread(self.offset, count, buffer)
    }

    /// Writes up to `count` bytes from the buffer at the cursor: every
    /// byte of the file in `[offset, offset + count)` takes the buffer's
    /// byte, as far as both reach.
    pub fn write(&mut self, buffer: &Vec<u8>, count: usize)
        ensures
            final(self).fd == old(self).fd,
            final(self).offset == old(self).offset,
            final(self).flags == old(self).flags,
            final(self).inode.id == old(self).inode.id,
            final(self).inode.file_type == old(self).inode.file_type,
            (match (old(self).inode.contents, final(self).inode.contents) {
                (FileContents::Content(obytes), FileContents::Content(nbytes)) => {
                    &&& nbytes@.len() == obytes@.len()
                    &&& forall|k: int|
                        0 <= k < obytes@.len() ==> nbytes@[k] == (if old(self).offset <= k < old(
                            self,
                        ).offset + count && k - old(self).offset < buffer@.len() {
                            buffer@[k - old(self).offset]
                        } else {
                            obytes@[k]
                        })
                },
                (FileContents::Empty, FileContents::Empty) => true,
                _ => false,
            }),
    {
        let off = self.offset;
        self.inode.pwrite(off, count, buffer)
    }
}

/// The table from descriptors to open files.
pub struct FileTable {
    /// Slot `fd` holds the handle of descriptor `fd`.
    pub files: Vec<Option<FileHandle>>,
}

/// How many descriptors the table holds.
pub const FILE_TABLE_CAPACITY: usize = 256;

impl FileTable {
    /// A table with every descriptor free.
    pub fn new() -> (r: FileTable)
        ensures
            r.files@.len() == FILE_TABLE_CAPACITY,
            forall|i: int| 0 <= i < r.files@.len() ==> (#[trigger] r.files@[i]) is None,
    {
        let mut files: Vec<Option<FileHandle>> = Vec::new();
        let mut i: usize = 0;
        while i < FILE_TABLE_CAPACITY
            invariant
                i <= FILE_TABLE_CAPACITY,
                files@.len() == i,
                forall|m: int| 0 <= m < i ==> (#[trigger] files@[m]) is None,
            decreases FILE_TABLE_CAPACITY - i,
        {
            files.push(None);
            i = i + 1;
        }
        FileTable { files }
    }

    /// Whether descriptor `fd` is open.
    pub fn get_handle(&self, fd: usize) -> (r: Option<&FileHandle>)
        ensures
            fd < self.files@.len() && self.files@[fd as int] is Some ==> (r matches Some(h) && h
                == self.files@[fd as int]->Some_0),
            fd >= self.files@.len() || self.files@[fd as int] is None ==> r is None,
    {
        if fd < self.files.len() {
            match &self.files[fd] {
                Some(h) => Some(h),
                None => None,
            }
        } else {
            None
        }
    }

    /// Opens a node on the lowest free descriptor; every descriptor
    /// taken is refused as busy.
    pub fn open_file(&mut self, inode: RamNode, flags: OFlags) -> (r: Result<
        usize,
        FileSystemError,
    >)
        ensures
            (match r {
                Ok(fd) => {
                    &&& fd < old(self).files@.len()
                    &&& old(self).files@[fd as int] is None
                    &&& forall|m: int| 0 <= m < fd ==> (#[trigger] old(self).files@[m]) is Some
                    &&& final(self).files@.len() == old(self).files@.len()
                    &&& ((final(self).files@[fd as int]) matches Some(h) && h.fd == fd
                        && h.offset == 0 && h.inode == inode && h.flags == flags)
                    &&& forall|m: int|
                        0 <= m < old(self).files@.len() && m != fd
                            ==> #[trigger] final(self).files@[m] == old(self).files@[m]
                },
                Err(e) => e == FileSystemError::Busy && *final(self) == *old(self) && (forall|
                    m: int,
                |
                    0 <= m < old(self).files@.len() ==> (#[trigger] old(self).files@[m]) is Some),
            }),
    {
        let n = self.files.len();
        let mut i: usize = 0;
        while i < n
            invariant
                i <= n,
                n == self.files@.len(),
                *self == *old(self),
                forall|m: int| 0 <= m < i ==> (#[trigger] self.files@[m]) is Some,
            decreases n - i,
        {
            let free = match &self.files[i] {
                Some(_) => false,
                None => true,
            };
            if free {
                self.files.set(i, Some(FileHandle::new(i, inode, flags)));
                return Ok(i);
            }
            i = i + 1;
        }
        Err(FileSystemError::Busy)
    }
}

} // verus!
