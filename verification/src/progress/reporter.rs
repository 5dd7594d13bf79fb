//! What is shown while data flows.
//!
//! Throughput and fullness are shown with decimals: the caller computes them and
//! hands in their text.

use crate::text;
use crate::text::{push_decimal, push_two_digits};
use crate::time;
use std::time::Duration;
use vstd::prelude::*;
use vstd::string::*;

verus! {

/// How much is shown.
#[derive(Debug, Clone, Copy, PartialEq, Eq, Structural)]
pub enum ProgressVerbosity {
    Quiet,
    Normal,
    Verbose,
}

/// The counters at one moment.
#[derive(Debug)]
pub struct ProgressSnapshot {
    pub elapsed: Duration,
    pub total_bytes: u64,
    pub chunk_size: usize,
    pub channel_count: usize,
    /// Hundredths of a percent.
    pub buffer_fullness_basis_points: u64,
    pub retransmit_count: u64,
    pub crc_errors: u64,
}

impl ProgressSnapshot {
    /// When the transfer will be done: the amount to come is not known, so
    /// neither is the time.
    pub fn eta(&self) -> (r: Option<Duration>)
        ensures
            r is None,
    {
        None
    }
}

/// What is due at a tick.
#[derive(Debug, Clone, Copy, PartialEq, Eq, Structural)]
pub struct ProgressTick {
    /// Time since the start.
    pub elapsed_ns: u64,
    /// Bytes since the last tick.
    pub delta_bytes: u64,
    /// Whether a line is shown.
    pub shown: bool,
    /// When it is.
    pub now_ns: u64,
    /// All bytes so far.
    pub total_bytes: u64,
}

/// A reporter, as seen from outside.
pub struct ReporterModel {
    pub started_ns: u64,
    pub last_tick_ns: u64,
    pub interval_ns: u128,
    pub verbosity: ProgressVerbosity,
    pub total_bytes: u64,
    pub chunk_size: usize,
    pub channel_count: usize,
    pub basis_points: u64,
    pub retransmits: u64,
    pub crc_errors: u64,
    /// Most bytes between two ticks.
    pub peak_bytes: u64,
    pub bytes_at_last_tick: u64,
}

impl ReporterModel {
    /// What is due at `now_ns`: something once the interval has passed, or where
    /// it is forced, or at the end.
    pub open spec fn due(self, force: bool, is_final: bool, now_ns: u64) -> Option<ProgressTick> {
        if force || is_final || time_since(now_ns, self.last_tick_ns) >= self.interval_ns {
            Some(
                ProgressTick {
                    elapsed_ns: time_since(now_ns, self.started_ns) as u64,
                    delta_bytes: time_since(self.total_bytes, self.bytes_at_last_tick) as u64,
                    shown: self.verbosity != ProgressVerbosity::Quiet || is_final,
                    now_ns,
                    total_bytes: self.total_bytes,
                },
            )
        } else {
            None
        }
    }

    /// After the tick.
    pub open spec fn ticked(self, tick: ProgressTick) -> ReporterModel {
        ReporterModel {
            peak_bytes: if tick.delta_bytes > self.peak_bytes {
                tick.delta_bytes
            } else {
                self.peak_bytes
            },
            bytes_at_last_tick: tick.total_bytes,
            last_tick_ns: tick.now_ns,
            ..self
        }
    }
}

/// How much later `now` is than `then`; 0 where it is not.
pub open spec fn time_since(now: u64, then_at: u64) -> int {
    if now >= then_at {
        now - then_at
    } else {
        0
    }
}

/// Counts what goes on and says when to show it.
#[derive(Debug)]
pub struct ProgressReporter {
    started_ns: u64,
    last_tick_ns: u64,
    interval: Duration,
    verbosity: ProgressVerbosity,
    total_bytes: u64,
    chunk_size: usize,
    channel_count: usize,
    buffer_fullness_basis_points: u64,
    retransmit_count: u64,
    crc_errors: u64,
    peak_interval_bytes: u64,
    last_interval_bytes: u64,
}

impl ProgressReporter {
    /// The reporter as seen from outside.
    pub closed spec fn model(self) -> ReporterModel {
        ReporterModel {
            started_ns: self.started_ns,
            last_tick_ns: self.last_tick_ns,
            interval_ns: time::nanos_of(self.interval),
            verbosity: self.verbosity,
            total_bytes: self.total_bytes,
            chunk_size: self.chunk_size,
            channel_count: self.channel_count,
            basis_points: self.buffer_fullness_basis_points,
            retransmits: self.retransmit_count,
            crc_errors: self.crc_errors,
            peak_bytes: self.peak_interval_bytes,
            bytes_at_last_tick: self.last_interval_bytes,
        }
    }

    /// A reporter that starts at `now_ns`.
    pub fn new(interval: Duration, verbosity: ProgressVerbosity, now_ns: u64) -> (r: Self)
        ensures
            r.model() == (ReporterModel {
                started_ns: now_ns,
                last_tick_ns: now_ns,
                interval_ns: time::nanos_of(interval),
                verbosity,
                total_bytes: 0,
                chunk_size: 0,
                channel_count: 0,
                basis_points: 0,
                retransmits: 0,
                crc_errors: 0,
                peak_bytes: 0,
                bytes_at_last_tick: 0,
            }),
    {
        ProgressReporter {
            started_ns: now_ns,
            last_tick_ns: now_ns,
            interval,
            verbosity,
            total_bytes: 0,
            chunk_size: 0,
            channel_count: 0,
            buffer_fullness_basis_points: 0,
            retransmit_count: 0,
            crc_errors: 0,
            peak_interval_bytes: 0,
            last_interval_bytes: 0,
        }
    }

    /// Counts bytes.
    pub fn record_bytes(&mut self, bytes: u64)
        ensures
            final(self).model() == (ReporterModel {
                total_bytes: old(self).model().total_bytes.wrapping_add(bytes),
                ..old(self).model()
            }),
    {
        self.total_bytes = self.total_bytes.wrapping_add(bytes);
    }

    /// Sets the chunk size to show.
    pub fn set_chunk_size(&mut self, chunk_size: usize)
        ensures
            final(self).model() == (ReporterModel { chunk_size, ..old(self).model() }),
    {
        self.chunk_size = chunk_size;
    }

    /// Sets the number of channels to show.
    pub fn set_channel_count(&mut self, channel_count: usize)
        ensures
            final(self).model() == (ReporterModel { channel_count, ..old(self).model() }),
    {
        self.channel_count = channel_count;
    }

    /// Sets how full the buffer is, in hundredths of a percent; more than all of
    /// it counts as all of it.
    pub fn set_buffer_fullness(&mut self, basis_points: u64)
        ensures
            final(self).model() == (ReporterModel {
                basis_points: if basis_points <= 10_000 {
                    basis_points
                } else {
                    10_000
                },
                ..old(self).model()
            }),
    {
        self.buffer_fullness_basis_points = if basis_points <= 10_000 {
            basis_points
        } else {
            10_000
        };
    }

    /// Counts a retransmission.
    pub fn increment_retransmits(&mut self)
        ensures
            final(self).model() == (ReporterModel {
                retransmits: old(self).model().retransmits.wrapping_add(1),
                ..old(self).model()
            }),
    {
        self.retransmit_count = self.retransmit_count.wrapping_add(1);
    }

    /// Counts a wrong checksum.
    pub fn increment_crc_errors(&mut self)
        ensures
            final(self).model() == (ReporterModel {
                crc_errors: old(self).model().crc_errors.wrapping_add(1),
                ..old(self).model()
            }),
    {
        self.crc_errors = self.crc_errors.wrapping_add(1);
    }

    /// The counters at one moment.
    pub fn snapshot(&self, elapsed: Duration) -> (r: ProgressSnapshot)
        ensures
            r.elapsed == elapsed,
            r.total_bytes == self.model().total_bytes,
            r.chunk_size == self.model().chunk_size,
            r.channel_count == self.model().channel_count,
            r.buffer_fullness_basis_points == self.model().basis_points,
            r.retransmit_count == self.model().retransmits,
            r.crc_errors == self.model().crc_errors,
    {
        ProgressSnapshot {
            elapsed,
            total_bytes: self.total_bytes,
            chunk_size: self.chunk_size,
            channel_count: self.channel_count,
            buffer_fullness_basis_points: self.buffer_fullness_basis_points,
            retransmit_count: self.retransmit_count,
            crc_errors: self.crc_errors,
        }
    }

    /// The line for this moment. `throughput` and `buffer` are the texts of the
    /// throughput in MB/s and of the buffer's fullness in percent.
    pub fn format_line(
        &self,
        elapsed: Duration,
        throughput: &str,
        buffer: &str,
        is_final: bool,
    ) -> (r: String)
        ensures
            ({
                let m = self.model();
                r@ == line(
                    clock(time::nanos_of(elapsed) as nat / 1_000_000_000),
                    (m.total_bytes as nat, m.chunk_size as nat, m.channel_count as nat),
                    (throughput@, buffer@),
                    (m.retransmits as nat, m.crc_errors as nat),
                    "--:--"@,
                    m.verbosity,
                    is_final,
                )
            }),
    {
        let snapshot = self.snapshot(elapsed);
        format_progress(&snapshot, throughput, buffer, None, self.verbosity, is_final)
    }

    /// What is due at `now_ns`.
    pub fn due(&self, force: bool, is_final: bool, now_ns: u64) -> (r: Option<ProgressTick>)
        ensures
            r == self.model().due(force, is_final, now_ns),
    {
        let since: u64 = now_ns.saturating_sub(self.last_tick_ns);
        if !(force || is_final || since as u128 >= self.interval.as_nanos()) {
            return None;
        }
        let quiet = match self.verbosity {
            ProgressVerbosity::Quiet => true,
            _ => false,
        };
        Some(
            ProgressTick {
                elapsed_ns: now_ns.saturating_sub(self.started_ns),
                delta_bytes: self.total_bytes.saturating_sub(self.last_interval_bytes),
                shown: !quiet || is_final,
                now_ns,
                total_bytes: self.total_bytes,
            },
        )
    }

    /// Takes note that the tick was carried out.
    pub fn tick(&mut self, tick: ProgressTick)
        ensures
            final(self).model() == old(self).model().ticked(tick),
    {
        if tick.delta_bytes > self.peak_interval_bytes {
            self.peak_interval_bytes = tick.delta_bytes;
        }
        self.last_interval_bytes = tick.total_bytes;
        self.last_tick_ns = tick.now_ns;
    }

    /// Most bytes between two ticks.
    pub fn peak_interval_bytes(&self) -> (r: u64)
        ensures
            r == self.model().peak_bytes,
    {
        self.peak_interval_bytes
    }

    /// The line at the very end. `elapsed`, `average` and `peak` are the texts of
    /// the time taken and of the throughputs in MB/s.
    pub fn finalize_summary(&self, elapsed: &str, average: &str, peak: &str) -> (r: String)
        ensures
            r@ == "Completed in "@ + elapsed@ + "; avg "@ + average@ + " MB/s; peak "@ + peak@
                + " MB/s; errors "@ + text::decimal(
                self.model().crc_errors.wrapping_add(self.model().retransmits) as nat,
            ),
    {
        let mut s = text::joined("Completed in ", elapsed);
        s.append("; avg ");
        s.append(average);
        s.append(" MB/s; peak ");
        s.append(peak);
        s.append(" MB/s; errors ");
        push_decimal(&mut s, self.crc_errors.wrapping_add(self.retransmit_count));
        s
    }
}

/// `secs` seconds as hours, minutes and seconds.
pub open spec fn clock(secs: nat) -> Seq<char> {
    text::two_digits(secs / 60 / 60) + ":"@ + text::two_digits(secs / 60 % 60) + ":"@
        + text::two_digits(secs % 60)
}

/// A progress line: the time, the bytes with chunk size and channels, the texts
/// of throughput and fullness, the error counts, the time left.
pub open spec fn line(
    elapsed: Seq<char>,
    sizes: (nat, nat, nat),
    shown: (Seq<char>, Seq<char>),
    errors: (nat, nat),
    eta: Seq<char>,
    verbosity: ProgressVerbosity,
    is_final: bool,
) -> Seq<char> {
    "elapsed="@ + elapsed + " total="@ + text::decimal(sizes.0) + "B throughput="@ + shown.0
        + "MB/s chunk="@ + text::decimal(sizes.1) + " channels="@ + text::decimal(sizes.2)
        + " buffer="@ + shown.1 + "% retransmits="@ + text::decimal(errors.0) + " crc_errors="@
        + text::decimal(errors.1) + " eta="@ + eta + (if verbosity == ProgressVerbosity::Verbose {
        " detailed"@
    } else {
        ""@
    }) + (if is_final {
        " final"@
    } else {
        ""@
    })
}

/// The text of a progress line.
pub fn format_progress(
    snapshot: &ProgressSnapshot,
    throughput: &str,
    buffer: &str,
    eta: Option<Duration>,
    verbosity: ProgressVerbosity,
    is_final: bool,
) -> (r: String)
    ensures
        r@ == line(
            clock(time::nanos_of(snapshot.elapsed) as nat / 1_000_000_000),
            (
                snapshot.total_bytes as nat,
                snapshot.chunk_size as nat,
                snapshot.channel_count as nat,
            ),
            (throughput@, buffer@),
            (snapshot.retransmit_count as nat, snapshot.crc_errors as nat),
            match eta {
                Some(d) => clock(time::nanos_of(d) as nat / 1_000_000_000),
                None => "--:--"@,
            },
            verbosity,
            is_final,
        ),
{
    let elapsed = format_duration(snapshot.elapsed);
    let eta_text = match eta {
        Some(d) => format_duration(d),
        None => "--:--".to_owned(),
    };
    let mut s = text::joined("elapsed=", elapsed.as_str());
    s.append(" total=");
    push_decimal(&mut s, snapshot.total_bytes);
    s.append("B throughput=");
    s.append(throughput);
    s.append("MB/s chunk=");
    push_decimal(&mut s, snapshot.chunk_size as u64);
    s.append(" channels=");
    push_decimal(&mut s, snapshot.channel_count as u64);
    s.append(" buffer=");
    s.append(buffer);
    s.append("% retransmits=");
    push_decimal(&mut s, snapshot.retransmit_count);
    s.append(" crc_errors=");
    push_decimal(&mut s, snapshot.crc_errors);
    s.append(" eta=");
    s.append(eta_text.as_str());
    match verbosity {
        ProgressVerbosity::Verbose => {
            s.append(" detailed");
        },
        _ => {
            s.append("");
        },
    }
    if is_final {
        s.append(" final");
    } else {
        s.append("");
    }
    s
}

/// The time as hours, minutes and seconds, with at least two digits each.
pub fn format_duration(duration: Duration) -> (r: String)
    ensures
        r@ == clock(time::nanos_of(duration) as nat / 1_000_000_000),
{
    let secs: u64 = duration.as_secs();
    let mut s = String::new();
    push_two_digits(&mut s, secs / 60 / 60);
    s.append(":");
    push_two_digits(&mut s, secs / 60 % 60);
    s.append(":");
    push_two_digits(&mut s, secs % 60);
    assert(s@ =~= clock(secs as nat));
    s
}

/// A line is due once the interval is over since the last one, or where it is forced, or
/// at the end. It is shown unless all should be quiet; the last one is shown in any case.
/// It counts the bytes since the last one, and the time since the start.
pub proof fn lemma_line_is_due(m: ReporterModel, force: bool, is_final: bool, now_ns: u64)
    requires
        m.started_ns <= now_ns,
        m.last_tick_ns <= now_ns,
        m.bytes_at_last_tick <= m.total_bytes,
    ensures
        m.due(force, is_final, now_ns) is Some <==> force || is_final || now_ns - m.last_tick_ns
            >= m.interval_ns,
        m.due(force, is_final, now_ns) matches Some(tick) ==> {
            &&& tick.elapsed_ns == now_ns - m.started_ns
            &&& tick.delta_bytes == m.total_bytes - m.bytes_at_last_tick
            &&& tick.shown == (is_final || !(m.verbosity is Quiet))
            &&& tick.now_ns == now_ns
            &&& tick.total_bytes == m.total_bytes
        },
{
}

/// Where time or the count of bytes went backwards, nothing has passed.
pub proof fn lemma_nothing_passes_backwards(now: u64, then_at: u64)
    ensures
        now <= then_at ==> time_since(now, then_at) == 0,
        now >= then_at ==> time_since(now, then_at) + then_at == now,
{
}

/// After a line, the next interval begins, and the most bytes in an interval are known.
pub proof fn lemma_line_starts_an_interval(m: ReporterModel, tick: ProgressTick)
    ensures
        m.ticked(tick).last_tick_ns == tick.now_ns,
        m.ticked(tick).bytes_at_last_tick == tick.total_bytes,
        m.ticked(tick).peak_bytes >= m.peak_bytes,
        m.ticked(tick).peak_bytes >= tick.delta_bytes,
        m.ticked(tick).peak_bytes == m.peak_bytes || m.ticked(tick).peak_bytes == tick.delta_bytes,
        m.ticked(tick) == (ReporterModel {
            last_tick_ns: m.ticked(tick).last_tick_ns,
            bytes_at_last_tick: m.ticked(tick).bytes_at_last_tick,
            peak_bytes: m.ticked(tick).peak_bytes,
            ..m
        }),
{
}

/// A clock shows the hours, the minutes and the seconds that a time comes to.
pub proof fn lemma_clock_shows_the_time(hours: nat, minutes: nat, seconds: nat)
    requires
        minutes < 60,
        seconds < 60,
    ensures
        clock(hours * 3600 + minutes * 60 + seconds) == text::two_digits(hours) + ":"@
            + text::two_digits(minutes) + ":"@ + text::two_digits(seconds),
{
    let all = hours * 3600 + minutes * 60 + seconds;
    assert(all / 60 == hours * 60 + minutes);
    assert(all / 60 / 60 == hours);
    assert(all / 60 % 60 == minutes);
    assert(all % 60 == seconds);
}

/// What a line says of whom, in which order.
pub proof fn lemma_line_text(
    elapsed: Seq<char>,
    sizes: (nat, nat, nat),
    shown: (Seq<char>, Seq<char>),
    errors: (nat, nat),
    eta: Seq<char>,
    verbosity: ProgressVerbosity,
)
    ensures
        ({
            let plain = line(elapsed, sizes, shown, errors, eta, ProgressVerbosity::Normal, false);
            let (total, chunk, channels) = sizes;
            let (throughput, buffer) = shown;
            let (retransmits, crc_errors) = errors;
            &&& plain == "elapsed="@ + elapsed + " total="@ + text::decimal(total)
                + "B throughput="@ + throughput + "MB/s chunk="@ + text::decimal(chunk)
                + " channels="@ + text::decimal(channels) + " buffer="@ + buffer
                + "% retransmits="@ + text::decimal(retransmits) + " crc_errors="@ + text::decimal(
                crc_errors,
            ) + " eta="@ + eta
            &&& line(elapsed, sizes, shown, errors, eta, ProgressVerbosity::Quiet, false) == plain
            &&& line(elapsed, sizes, shown, errors, eta, ProgressVerbosity::Verbose, false)
                == plain + " detailed"@
            &&& line(elapsed, sizes, shown, errors, eta, verbosity, true) == line(
                elapsed,
                sizes,
                shown,
                errors,
                eta,
                verbosity,
                false,
            ) + " final"@
        }),
{
    reveal_strlit("");
}

} // verus!
