//! Directory tree traversal for Linux, driven by the raw `getdents64` record format.
//!
//! The library holds the traversal logic as a state machine: it parses the kernel's
//! directory records, keeps the stack of directories in progress, bounds the number of
//! descriptors held at once, and tells its driver which system call to make next.
use vstd::prelude::*;

pub mod getdent;
pub mod path;
pub mod walker;

pub use walker::{DirEntry, Error, IntoIter, WalkDir};

verus! {

/// Tag value the kernel writes for a named pipe.
pub const DT_FIFO: u8 = 1;

/// Tag value the kernel writes for a character device.
pub const DT_CHR: u8 = 2;

/// Tag value the kernel writes for a directory.
pub const DT_DIR: u8 = 4;

/// Tag value the kernel writes for a block device.
pub const DT_BLK: u8 = 6;

/// Tag value the kernel writes for a regular file.
pub const DT_REG: u8 = 8;

/// Tag value the kernel writes for a symbolic link.
pub const DT_LNK: u8 = 10;

/// Tag value the kernel writes for a socket.
pub const DT_SOCK: u8 = 12;

/// The kind of a directory entry, as far as it is known.
#[derive(Clone, Copy, Debug, PartialEq, Eq, Structural)]
pub enum UnixFileType {
    BlockDevice,
    CharDevice,
    Directory,
    NamedPipe,
    SymbolicLink,
    File,
    UnixSocket,
}

/// The kind that a record's type tag stands for; `None` for every other value,
/// the "unknown" tag included.
pub open spec fn kind_of_tag(tag: u8) -> Option<UnixFileType> {
    if tag == DT_BLK {
        Some(UnixFileType::BlockDevice)
    } else if tag == DT_CHR {
        Some(UnixFileType::CharDevice)
    } else if tag == DT_DIR {
        Some(UnixFileType::Directory)
    } else if tag == DT_FIFO {
        Some(UnixFileType::NamedPipe)
    } else if tag == DT_LNK {
        Some(UnixFileType::SymbolicLink)
    } else if tag == DT_REG {
        Some(UnixFileType::File)
    } else if tag == DT_SOCK {
        Some(UnixFileType::UnixSocket)
    } else {
        None
    }
}

impl UnixFileType {
    /// Decode the type tag of a record.
    pub fn new(kind: i8) -> (r: Option<Self>)
        ensures
            r == kind_of_tag(kind as u8),
    {
        let tag = kind as u8;
        if tag == DT_BLK {
            Some(UnixFileType::BlockDevice)
        } else if tag == DT_CHR {
            Some(UnixFileType::CharDevice)
        } else if tag == DT_DIR {
            Some(UnixFileType::Directory)
        } else if tag == DT_FIFO {
            Some(UnixFileType::NamedPipe)
        } else if tag == DT_LNK {
            Some(UnixFileType::SymbolicLink)
        } else if tag == DT_REG {
            Some(UnixFileType::File)
        } else if tag == DT_SOCK {
            Some(UnixFileType::UnixSocket)
        } else {
            None
        }
    }
}

} // verus!
