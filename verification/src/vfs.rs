//! The filesystem as the library sees it: the kinds of objects, the errors,
//! what a stat returns, and the operations a filesystem has to offer.

use vstd::prelude::*;

verus! {

/// The kind of a filesystem object.
#[derive(Debug, Clone, Copy, PartialEq, Eq, Structural)]
pub enum FileType {
    File,
    Dir,
    Symlink,
    Other,
}

/// The three questions a platform answers about an object's kind.
#[derive(Debug, Clone, Copy)]
pub struct FileTypeFlags {
    pub is_file: bool,
    pub is_dir: bool,
    pub is_symlink: bool,
}

/// The kind that a triple of answers stands for: the first that holds of
/// regular file, directory and symlink, and `Other` where none does (a
/// device, a fifo, a socket).
pub open spec fn file_type_of(ft: FileTypeFlags) -> FileType {
    if ft.is_file {
        FileType::File
    } else if ft.is_dir {
        FileType::Dir
    } else if ft.is_symlink {
        FileType::Symlink
    } else {
        FileType::Other
    }
}

impl FileTypeFlags {
    /// Whether at most one of the three answers is yes. A platform's answers
    /// about one object are so: no object is of two kinds.
    pub open spec fn exclusive(&self) -> bool {
        &&& !(self.is_file && self.is_dir)
        &&& !(self.is_file && self.is_symlink)
        &&& !(self.is_dir && self.is_symlink)
    }
}

/// Where at most one answer is yes, the kind is the one that the answers
/// name: a directory gives `Dir` and nothing else does, and the same holds
/// of regular files and of symlinks; `Other` is left where every answer is
/// no.
pub proof fn lemma_exclusive_flags_name_the_kind(ft: FileTypeFlags)
    requires
        ft.exclusive(),
    ensures
        ft.is_file <==> file_type_of(ft) == FileType::File,
        ft.is_dir <==> file_type_of(ft) == FileType::Dir,
        ft.is_symlink <==> file_type_of(ft) == FileType::Symlink,
        !ft.is_file && !ft.is_dir && !ft.is_symlink <==> file_type_of(ft) == FileType::Other,
{
}

impl vstd::std_specs::convert::FromSpecImpl<FileTypeFlags> for FileType {
    open spec fn obeys_from_spec() -> bool {
        true
    }

    open spec fn from_spec(ft: FileTypeFlags) -> FileType {
        file_type_of(ft)
    }
}

impl From<FileTypeFlags> for FileType {
    fn from(ft: FileTypeFlags) -> (kind: FileType)
        ensures
            kind == file_type_of(ft),
            ft.exclusive() ==> (ft.is_file <==> kind == FileType::File),
            ft.exclusive() ==> (ft.is_dir <==> kind == FileType::Dir),
            ft.exclusive() ==> (ft.is_symlink <==> kind == FileType::Symlink),
    {
        if ft.is_file {
            FileType::File
        } else if ft.is_dir {
            FileType::Dir
        } else if ft.is_symlink {
            FileType::Symlink
        } else {
            FileType::Other
        }
    }
}

/// An inode number.
#[derive(Debug, Clone, Copy, Hash, PartialEq, Eq, Structural)]
pub struct Inode(pub u64);

/// A device id.
#[derive(Debug, Clone, Copy, PartialEq, Eq, Structural)]
pub struct DeviceId(pub u64);

/// What can go wrong with a filesystem operation.
#[derive(Debug, Clone, Copy, PartialEq, Eq, Structural)]
pub enum FsError {
    NotFound,
    PermissionDenied,
    CrossDeviceLink,
    BrokenSymlinkTarget,
    ReadFailure,
    MetadataUnavailable,
}

/// What one stat of an object returned, as plain values. The modification
/// time is in seconds since the Unix epoch.
#[derive(Debug, Clone, Copy)]
pub struct Stat {
    pub len: u64,
    pub mod_time: Result<u64, FsError>,
    pub kind: FileType,
    pub inode: Inode,
    pub device: Result<DeviceId, FsError>,
}

/// The outcome of one stat: the subset of a platform's metadata that the
/// library reads. A value of such a type holds what the stat returned; its
/// getters read that out and ask the filesystem no more.
pub trait MetaData {
    /// Everything that the stat returned, as plain values. Each getter
    /// gives out its part of this.
    spec fn stat(&self) -> Stat;

    /// The length of the content in bytes.
    fn get_len(&self) -> (len: u64)
        ensures
            len == self.stat().len,
    ;

    /// The modification time, in seconds since the Unix epoch.
    fn get_mod_time(&self) -> (time: Result<u64, FsError>)
        ensures
            time == self.stat().mod_time,
    ;

    /// The kind of the object.
    fn get_type(&self) -> (kind: FileType)
        ensures
            kind == self.stat().kind,
    ;

    /// The inode number.
    fn get_inode(&self) -> (inode: Inode)
        ensures
            inode == self.stat().inode,
    ;

    /// The device that the object lives on.
    fn get_device(&self) -> (device: Result<DeviceId, FsError>)
        ensures
            device == self.stat().device,
    ;
}

impl MetaData for Stat {
    open spec fn stat(&self) -> Stat {
        *self
    }

    fn get_len(&self) -> (len: u64) {
        self.len
    }

    fn get_mod_time(&self) -> (time: Result<u64, FsError>) {
        self.mod_time
    }

    fn get_type(&self) -> (kind: FileType) {
        self.kind
    }

    fn get_inode(&self) -> (inode: Inode) {
        self.inode
    }

    fn get_device(&self) -> (device: Result<DeviceId, FsError>) {
        self.device
    }
}

impl Stat {
    /// Reads a stat's outcome out into plain values.
    pub(crate) fn of<M: MetaData>(md: &M) -> (stat: Stat)
        ensures
            stat == md.stat(),
    {
        Stat {
            len: md.get_len(),
            mod_time: md.get_mod_time(),
            kind: md.get_type(),
            inode: md.get_inode(),
            device: md.get_device(),
        }
    }
}

/// A handle on one object of a filesystem. Every method but `get_path`
/// asks the filesystem, so nothing is known of what it returns.
pub trait File {
    type MD: MetaData;

    /// The object's inode number.
    fn get_inode(&self) -> Result<Inode, FsError>;

    /// The path that the handle stands for.
    fn get_path(&self) -> String;

    /// The object's kind, by a stat that does not follow symlinks.
    fn get_type(&self) -> Result<FileType, FsError>;

    /// A stat of the object that follows symlinks.
    fn get_metadata(&self) -> Result<Self::MD, FsError>;

    /// Reads at most `max` bytes of the content, starting `offset` bytes
    /// into it. The handle keeps nothing open between two calls.
    fn read_at(&self, offset: u64, max: usize) -> Result<Vec<u8>, FsError>;
}

/// A filesystem: the real one, or a stand-in held in memory.
pub trait VFS {
    type FileIter: File;

    /// The direct children of a directory, in the filesystem's order. Fails
    /// where the directory cannot be listed; a child that cannot be read
    /// stands in the listing as its error.
    fn list_dir(&self, p: &str) -> Result<Vec<Result<Self::FileIter, FsError>>, FsError>;

    /// A stat of the path that follows symlinks.
    fn get_metadata(&self, p: &str) -> Result<<Self::FileIter as File>::MD, FsError>;

    /// A stat of the path that does not follow symlinks.
    fn get_symlink_metadata(&self, p: &str) -> Result<<Self::FileIter as File>::MD, FsError>;

    /// The target of a symlink. Fails where the path is no symlink.
    fn read_link(&self, p: &str) -> Result<String, FsError>;

    /// A handle on a regular file. Fails where the path leads to none.
    fn get_file(&self, p: &str) -> Result<Self::FileIter, FsError>;

    /// Removes a file. Fails where it is missing or cannot be removed.
    fn rm_file(&mut self, p: &str) -> Result<(), FsError>;

    /// Makes `src` a hard link to the file at `dst`. Fails across devices,
    /// where `src` exists already, and where `dst` is missing.
    fn make_link(&mut self, src: &str, dst: &str) -> Result<(), FsError>;
}

} // verus!
