//! The sending side of a file transfer.

use crate::error::{BraidError, Result};
use crate::file_mode::FileMetadata;
use vstd::prelude::*;

verus! {

/// A file to be sent.
#[derive(Debug)]
pub struct FileModeSender {
    pub input_path: String,
}

impl FileModeSender {
    /// A sender for the file at `input_path`. What the file system says of it is
    /// whether it is a regular file, or an error.
    pub fn new(
        input_path: String,
        is_file: std::result::Result<bool, std::io::Error>,
    ) -> (r: Result<Self>)
        ensures
            match is_file {
                Ok(true) => r is Ok && r->Ok_0.input_path == input_path,
                Ok(false) => r is Err && r->Err_0 is Protocol && r->Err_0->Protocol_0@
                    == "input path is not a regular file"@,
                Err(e) => r is Err && r->Err_0 is Io && r->Err_0->Io_0 == e,
            },
    {
        match is_file {
            Ok(true) => Ok(FileModeSender { input_path }),
            Ok(false) => Err(BraidError::Protocol("input path is not a regular file")),
            Err(e) => Err(BraidError::Io(e)),
        }
    }

    /// The metadata of the file: the last component of its path where that is
    /// text, its size, and the checksum of its contents.
    pub fn prepare(&self, basename: Option<String>, filesize: u64, file_crc32c: u32) -> (r: Result<
        FileMetadata,
    >)
        ensures
            match basename {
                Some(name) => r is Ok && r->Ok_0.filename == name && r->Ok_0.filesize == filesize
                    && r->Ok_0.file_crc32c == file_crc32c,
                None => r is Err && r->Err_0 is Protocol && r->Err_0->Protocol_0@
                    == "invalid filename in input path"@,
            },
    {
        match basename {
            Some(name) => Ok(FileMetadata::from_basename(name, filesize, file_crc32c)),
            None => Err(BraidError::Protocol("invalid filename in input path")),
        }
    }
}

} // verus!
