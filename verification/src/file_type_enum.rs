//! An enum with a variant for each file type.
//!
//! Directories come first among the variants, so that the derived order puts
//! them first as well.

use vstd::prelude::*;
use vstd::std_specs::convert::FromSpecImpl;

verus! {

/// An enum with a variant for each file type.
#[derive(Debug, Eq, PartialEq, Structural, Hash, Clone, Copy, Ord, PartialOrd)]
pub enum FileType {
    /// A directory, folder of files.
    Directory,
    /// A regular file (e.g. '.txt', '.rs', '.zip').
    Regular,
    /// A symbolic link, points to another path.
    Symlink,
    /// Unix block device.
    BlockDevice,
    /// Unix char device.
    CharDevice,
    /// Unix FIFO.
    Fifo,
    /// Unix socket.
    Socket,
    /// Anything the platform reports that is none of the above.
    Other,
}

/// The answers of the platform to the questions "is it a file?", "is it a
/// directory?" and so on, for one file.
#[derive(Debug, Clone, Copy)]
pub struct FileTypeFlags {
    pub is_file: bool,
    pub is_dir: bool,
    pub is_symlink: bool,
    pub is_block_device: bool,
    pub is_char_device: bool,
    pub is_fifo: bool,
    pub is_socket: bool,
}

/// The file type that a set of answers stands for: the first question, in the
/// order of the fields, that was answered with yes.
pub open spec fn file_type_of(ft: FileTypeFlags) -> FileType {
    if ft.is_file {
        FileType::Regular
    } else if ft.is_dir {
        FileType::Directory
    } else if ft.is_symlink {
        FileType::Symlink
    } else if ft.is_block_device {
        FileType::BlockDevice
    } else if ft.is_char_device {
        FileType::CharDevice
    } else if ft.is_fifo {
        FileType::Fifo
    } else if ft.is_socket {
        FileType::Socket
    } else {
        FileType::Other
    }
}

impl From<FileTypeFlags> for FileType {
    fn from(ft: FileTypeFlags) -> (result: FileType) {
        if ft.is_file {
            FileType::Regular
        } else if ft.is_dir {
            FileType::Directory
        } else if ft.is_symlink {
            FileType::Symlink
        } else if ft.is_block_device {
            FileType::BlockDevice
        } else if ft.is_char_device {
            FileType::CharDevice
        } else if ft.is_fifo {
            FileType::Fifo
        } else if ft.is_socket {
            FileType::Socket
        } else {
            FileType::Other
        }
    }
}

impl FromSpecImpl<FileTypeFlags> for FileType {
    open spec fn obeys_from_spec() -> bool {
        true
    }

    open spec fn from_spec(ft: FileTypeFlags) -> FileType {
        file_type_of(ft)
    }
}

impl FileType {
    /// The words that describe the file type to a reader.
    pub open spec fn description(self) -> Seq<char> {
        match self {
            FileType::Regular => "regular file"@,
            FileType::Directory => "directory"@,
            FileType::Symlink => "symbolic link"@,
            FileType::BlockDevice => "block device"@,
            FileType::CharDevice => "char device"@,
            FileType::Fifo => "FIFO"@,
            FileType::Socket => "socket"@,
            FileType::Other => "other"@,
        }
    }

    /// Describes the file type in words.
    pub fn to_string(&self) -> (s: String)
        ensures
            s@ == self.description(),
    {
        match self {
            FileType::Regular => "regular file".to_owned(),
            FileType::Directory => "directory".to_owned(),
            FileType::Symlink => "symbolic link".to_owned(),
            FileType::BlockDevice => "block device".to_owned(),
            FileType::CharDevice => "char device".to_owned(),
            FileType::Fifo => "FIFO".to_owned(),
            FileType::Socket => "socket".to_owned(),
            FileType::Other => "other".to_owned(),
        }
    }
}

} // verus!
