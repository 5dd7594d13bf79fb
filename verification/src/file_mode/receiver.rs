//! The receiving side of a file transfer.

use crate::error::{BraidError, Result};
use crate::file_mode::digest;
use crate::file_mode::sanitize;
use crate::file_mode::sanitize::sanitize_filename;
use crate::file_mode::FileMetadata;
use crate::protocol::crc;
use crate::text;
use crate::wire;
use vstd::prelude::*;
use vstd::string::*;

verus! {

/// Decides where a received file goes.
pub struct FileModeReceiver {
    pub output_override: Option<String>,
}

impl FileModeReceiver {
    /// A receiver that writes to the given path, or else to where the sender
    /// says.
    pub fn new(output_override: Option<String>) -> (r: Self)
        ensures
            r.output_override == output_override,
    {
        FileModeReceiver { output_override }
    }

    /// Where the file should go: the given path, or else the sender's name for
    /// it, once it is found harmless. What is there already is not to be
    /// overwritten: see `output::resolve_output_path`.
    pub fn resolve_output_path(&self, metadata: &FileMetadata) -> (r: Result<String>)
        ensures
            match self.output_override {
                Some(path) => r is Ok && r->Ok_0@ == path@,
                None => match sanitize::complaint(text::trimmed(metadata.filename@)) {
                    None => r is Ok && r->Ok_0@ == text::trimmed(metadata.filename@),
                    Some(why) => r is Err && r->Err_0 is Protocol && r->Err_0->Protocol_0@ == why,
                },
            },
    {
        match &self.output_override {
            Some(path) => Ok(path.as_str().to_owned()),
            None => match sanitize_filename(metadata.filename.as_str()) {
                Ok(name) => Ok(name),
                Err(why) => Err(BraidError::Protocol(why)),
            },
        }
    }

    /// The checksum of the written file, of which `reads` were read back.
    pub fn compute_hash(&self, reads: &Vec<Vec<u8>>) -> (r: u32)
        requires
            wire::total_len(wire::views(reads@)) <= u64::MAX,
        ensures
            r == crc::crc32_of(digest::contents(wire::views(reads@))),
    {
        digest::compute_file_crc32c(reads)
    }
}

} // verus!
