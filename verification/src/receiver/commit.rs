//! The last stage of the receiver: ordered chunks are written out.

use vstd::prelude::*;

verus! {

/// Counters of a commit gate at one moment.
#[derive(Debug, Clone, Copy, PartialEq, Eq, Structural)]
pub struct CommitGateStats {
    pub bytes_written: u64,
    pub chunks_committed: u64,
    pub crc_failures: u64,
    pub write_errors: u64,
}

impl CommitGateStats {
    /// After a chunk of `len` bytes was written, or could not be.
    pub open spec fn after_write(self, len: nat, written: bool) -> CommitGateStats {
        if written {
            CommitGateStats {
                bytes_written: self.bytes_written.wrapping_add(len as u64),
                chunks_committed: self.chunks_committed.wrapping_add(1),
                ..self
            }
        } else {
            CommitGateStats { write_errors: self.write_errors.wrapping_add(1), ..self }
        }
    }
}

/// Each chunk that was written counts with its bytes, each that was not as an error.
pub proof fn lemma_writes_are_counted(s: CommitGateStats, len: u64)
    ensures
        s.after_write(len as nat, true).bytes_written as int == (s.bytes_written + len)
            % 0x1_0000_0000_0000_0000,
        s.after_write(len as nat, true).chunks_committed as int == (s.chunks_committed + 1)
            % 0x1_0000_0000_0000_0000,
        s.after_write(len as nat, true).write_errors == s.write_errors,
        s.after_write(len as nat, false).write_errors as int == (s.write_errors + 1)
            % 0x1_0000_0000_0000_0000,
        s.after_write(len as nat, false).bytes_written == s.bytes_written,
        s.after_write(len as nat, false).chunks_committed == s.chunks_committed,
        s.after_write(len as nat, true).crc_failures == s.crc_failures,
        s.after_write(len as nat, false).crc_failures == s.crc_failures,
{
}

impl Default for CommitGateStats {
    fn default() -> (r: Self)
        ensures
            r == (CommitGateStats {
                bytes_written: 0,
                chunks_committed: 0,
                crc_failures: 0,
                write_errors: 0,
            }),
    {
        CommitGateStats { bytes_written: 0, chunks_committed: 0, crc_failures: 0, write_errors: 0 }
    }
}

/// A chunk to write: its payload without headers, its sequence number and
/// checksum.
#[derive(Debug)]
pub struct CommitGateInput {
    pub data: Vec<u8>,
    pub sequence_number: u64,
    pub chunk_crc: u32,
}

/// What a `CommitGateInput` holds.
#[verifier::ext_equal]
pub struct CommitModel {
    pub data: Seq<u8>,
    pub sequence_number: u64,
    pub chunk_crc: u32,
}

impl CommitGateInput {
    /// What the input holds.
    pub open spec fn model(self) -> CommitModel {
        CommitModel {
            data: self.data@,
            sequence_number: self.sequence_number,
            chunk_crc: self.chunk_crc,
        }
    }
}

/// Running counters of a commit gate. They wrap around on overflow.
#[derive(Debug)]
pub struct CommitGateStatsAtomic {
    bytes_written: u64,
    chunks_committed: u64,
    crc_failures: u64,
    write_errors: u64,
}

impl CommitGateStatsAtomic {
    /// The counters' values.
    pub closed spec fn view(self) -> CommitGateStats {
        CommitGateStats {
            bytes_written: self.bytes_written,
            chunks_committed: self.chunks_committed,
            crc_failures: self.crc_failures,
            write_errors: self.write_errors,
        }
    }

    /// All counters at zero.
    pub fn new() -> (r: Self)
        ensures
            r@ == (CommitGateStats {
                bytes_written: 0,
                chunks_committed: 0,
                crc_failures: 0,
                write_errors: 0,
            }),
    {
        CommitGateStatsAtomic {
            bytes_written: 0,
            chunks_committed: 0,
            crc_failures: 0,
            write_errors: 0,
        }
    }

    /// The counters at this moment.
    pub fn snapshot(&self) -> (r: CommitGateStats)
        ensures
            r == self@,
    {
        CommitGateStats {
            bytes_written: self.bytes_written,
            chunks_committed: self.chunks_committed,
            crc_failures: self.crc_failures,
            write_errors: self.write_errors,
        }
    }
}

/// Accounts for the chunks that are written out. The checksum was verified
/// when the chunk was assembled, so it is not looked at again.
pub struct CommitGate {
    stats: CommitGateStatsAtomic,
    progress_bytes: Option<u64>,
    stopped: bool,
}

impl CommitGate {
    /// The counters' values.
    pub closed spec fn counters(self) -> CommitGateStats {
        self.stats@
    }

    /// The progress counter, where one is wired up.
    pub closed spec fn progress(self) -> Option<u64> {
        self.progress_bytes
    }

    /// Whether a write failed.
    pub closed spec fn has_stopped(self) -> bool {
        self.stopped
    }

    /// A gate that wrote nothing yet.
    pub fn new() -> (r: Self)
        ensures
            r.counters() == (CommitGateStats {
                bytes_written: 0,
                chunks_committed: 0,
                crc_failures: 0,
                write_errors: 0,
            }),
            r.progress() is None,
            !r.has_stopped(),
    {
        CommitGate { stats: CommitGateStatsAtomic::new(), progress_bytes: None, stopped: false }
    }

    /// Wires up a progress counter that stands at `counter`.
    pub fn set_progress_bytes(&mut self, counter: u64)
        ensures
            final(self).progress() == Some(counter),
            final(self).counters() == old(self).counters(),
            final(self).has_stopped() == old(self).has_stopped(),
    {
        self.progress_bytes = Some(counter);
    }

    /// Accounts for one chunk: `written` says whether its data could be
    /// written. After a failure nothing more is committed, and the loop ends.
    pub fn process_chunk(&mut self, input: &CommitGateInput, written: bool) -> (r: Result<(), ()>)
        ensures
            r is Ok <==> written,
            final(self).has_stopped() == (old(self).has_stopped() || !written),
            final(self).counters() == (if written {
                CommitGateStats {
                    bytes_written: old(self).counters().bytes_written.wrapping_add(
                        input.data@.len() as u64,
                    ),
                    chunks_committed: old(self).counters().chunks_committed.wrapping_add(1),
                    ..old(self).counters()
                }
            } else {
                CommitGateStats {
                    write_errors: old(self).counters().write_errors.wrapping_add(1),
                    ..old(self).counters()
                }
            }),
            final(self).counters() == old(self).counters().after_write(input.data@.len(), written),
            final(self).progress() == match old(self).progress() {
                Some(n) if written => Some(n.wrapping_add(input.data@.len() as u64)),
                p => p,
            },
    {
        if !written {
            self.stats.write_errors = self.stats.write_errors.wrapping_add(1);
            self.stopped = true;
            return Err(());
        }
        let len: u64 = input.data.len() as u64;
        self.stats.bytes_written = self.stats.bytes_written.wrapping_add(len);
        self.stats.chunks_committed = self.stats.chunks_committed.wrapping_add(1);
        match self.progress_bytes {
            Some(n) => {
                self.progress_bytes = Some(n.wrapping_add(len));
            },
            None => {},
        }
        Ok(())
    }

    /// Whether the loop ends now: a write failed, or the input is closed.
    pub fn is_finished(&self, input_closed: bool) -> (r: bool)
        ensures
            r == (self.has_stopped() || input_closed),
    {
        self.stopped || input_closed
    }

    /// The counters at this moment.
    pub fn stats(&self) -> (r: CommitGateStats)
        ensures
            r == self.counters(),
    {
        self.stats.snapshot()
    }

    /// The progress counter, where one is wired up.
    pub fn progress_bytes(&self) -> (r: Option<u64>)
        ensures
            r == self.progress(),
    {
        self.progress_bytes
    }
}

} // verus!
