//! Transfer of a file with its name, size and checksum.

use crate::text;
use crate::text::{push_decimal, push_hex};
use vstd::prelude::*;
use vstd::string::*;

pub mod digest;
pub mod output;
pub mod receiver;
pub mod sanitize;
pub mod sender;
pub mod splitter;

verus! {

/// What is known of a file.
#[derive(Debug, Clone, PartialEq, Eq)]
pub struct FileMetadata {
    pub filename: String,
    pub filesize: u64,
    pub file_crc32c: u32,
}

impl FileMetadata {
    /// Metadata of the file of that name, without its directory.
    pub fn from_basename(basename: String, filesize: u64, hash: u32) -> (r: Self)
        ensures
            r.filename == basename,
            r.filesize == filesize,
            r.file_crc32c == hash,
    {
        FileMetadata { filename: basename, filesize, file_crc32c: hash }
    }

    /// The text shown for the metadata.
    pub open spec fn shown(self) -> Seq<char> {
        self.filename@ + " ("@ + text::decimal(self.filesize as nat) + " bytes, crc32c="@
            + text::hex(self.file_crc32c as nat, 8, false) + ")"@
    }

    /// The text shown for the metadata.
    pub fn to_string(&self) -> (r: String)
        ensures
            r@ == self.shown(),
            r@ == self.filename@ + " ("@ + text::decimal(self.filesize as nat) + " bytes, crc32c="@
                + text::hex(self.file_crc32c as nat, 8, false) + ")"@,
    {
        let mut s = text::joined(self.filename.as_str(), " (");
        push_decimal(&mut s, self.filesize);
        s.append(" bytes, crc32c=");
        push_hex(&mut s, self.file_crc32c, 8, false);
        s.append(")");
        s
    }
}

} // verus!
