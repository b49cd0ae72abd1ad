//! The recording/replay engine: entry and stream types, the recorder
//! clock, and the poll-driven player.
//!
//! Time is a plain count of nanoseconds.  Every operation that advances a
//! clock takes the elapsed time since the previous call as an argument, so
//! the engine itself is deterministic and fully specified; a host that
//! records in real time measures the elapsed durations and passes them in.

use vstd::prelude::*;
use vstd::pervasive::VecAdditionalExecFns;

use crate::codec::encoded_stream;
use crate::codec::parsed_stream;

verus! {

/// One recorded item: the payload bytes and the duration, in nanoseconds,
/// since the owning stream's start at which it was logged.
#[derive(Debug, Clone, PartialEq)]
pub struct Log {
    /// The recorded payload, stored byte-for-byte in little-endian order.
    pub item: Vec<u8>,
    /// Nanoseconds since the stream's start at which the item was logged.
    pub time: u64,
}

/// An ordered stream of recorded entries.
#[derive(Debug, Clone, PartialEq)]
pub struct LogFile {
    pub logs: Vec<Log>,
}

/// Errors the engine reports to its callers.
#[derive(Debug, Clone, Copy, PartialEq, Eq, Structural)]
pub enum LogError {
    /// A caller-provided buffer is shorter than the due entry's payload.
    Capacity,
    /// Bytes handed to `load_replay` are not a valid encoded stream.
    Malformed,
}

/// The mathematical model of one entry: its payload bytes and its offset.
pub open spec fn log_model(l: Log) -> (Seq<u8>, u64) {
    (l.item@, l.time)
}

/// The model of a sequence of entries.
pub open spec fn logs_model(s: Seq<Log>) -> Seq<(Seq<u8>, u64)> {
    s.map_values(|l: Log| log_model(l))
}

/// The model of a whole stream.
pub open spec fn file_model(f: LogFile) -> Seq<(Seq<u8>, u64)> {
    logs_model(f.logs@)
}

/// Entries appear in non-decreasing offset order.
pub open spec fn sorted_by_time(s: Seq<(Seq<u8>, u64)>) -> bool {
    forall|i: int, j: int| 0 <= i <= j < s.len() ==> #[trigger] s[i].1 <= #[trigger] s[j].1
}

/// The entry under the cursor is due: it exists and its offset has been
/// reached or passed by the replay clock.
pub open spec fn entry_due(s: Seq<(Seq<u8>, u64)>, cursor: int, clock: u64) -> bool {
    0 <= cursor < s.len() && s[cursor].1 <= clock
}

impl LogFile {
    /// An empty stream.
    pub fn new() -> (r: Self)
        ensures
            r.logs@ == Seq::<Log>::empty(),
    {
        Self { logs: Vec::new() }
    }
}

/// The recording/replay engine: a recorder clock with its growing stream,
/// and an independent player clock with its loaded stream and cursor.
pub struct Logger {
    log_current_duration: u64,
    logs: LogFile,
    replay_current_duration: u64,
    replay_idx: usize,
    replay_logs: LogFile,
}

impl Logger {
    /// The entries recorded so far, in insertion order.
    pub closed spec fn recorded(self) -> Seq<(Seq<u8>, u64)> {
        file_model(self.logs)
    }

    /// Nanoseconds accumulated by the recorder clock.
    pub closed spec fn rec_clock(self) -> u64 {
        self.log_current_duration
    }

    /// The entries of the loaded replay stream.
    pub closed spec fn loaded(self) -> Seq<(Seq<u8>, u64)> {
        file_model(self.replay_logs)
    }

    /// Index of the next not-yet-returned entry of the loaded stream.
    pub closed spec fn cursor(self) -> int {
        self.replay_idx as int
    }

    /// Nanoseconds accumulated by the player clock since the last load.
    pub closed spec fn play_clock(self) -> u64 {
        self.replay_current_duration
    }

    /// Well-formedness: recorded offsets are non-decreasing and never ahead
    /// of the recorder clock, and the cursor never points past the end of
    /// the loaded stream.
    pub open spec fn wf(self) -> bool {
        &&& sorted_by_time(self.recorded())
        &&& forall|i: int|
            0 <= i < self.recorded().len() ==> #[trigger] self.recorded()[i].1 <= self.rec_clock()
        &&& 0 <= self.cursor() <= self.loaded().len()
    }

    /// Creates a new engine: nothing recorded, nothing loaded, both clocks
    /// at zero.
    pub fn new() -> (r: Self)
        ensures
            r.wf(),
            r.recorded() == Seq::<(Seq<u8>, u64)>::empty(),
            r.rec_clock() == 0,
            r.loaded() == Seq::<(Seq<u8>, u64)>::empty(),
            r.cursor() == 0,
            r.play_clock() == 0,
    {
        let r = Self {
            log_current_duration: 0,
            logs: LogFile::new(),
            replay_current_duration: 0,
            replay_idx: 0,
            replay_logs: LogFile::new(),
        };
        proof {
            assert(r.recorded() =~= Seq::<(Seq<u8>, u64)>::empty());
            assert(r.loaded() =~= Seq::<(Seq<u8>, u64)>::empty());
        }
        r
    }

    /// The recorder clock's current value, in nanoseconds; a host checks
    /// it against `u64::MAX` before advancing the clock.
    pub fn rec_clock_nanos(&self) -> (r: u64)
        ensures
            r == self.rec_clock(),
    {
        self.log_current_duration
    }

    /// The player clock's current value, in nanoseconds.
    pub fn play_clock_nanos(&self) -> (r: u64)
        ensures
            r == self.play_clock(),
    {
        self.replay_current_duration
    }

    /// Records one item: advances the recorder clock by `elapsed`
    /// nanoseconds and appends an entry carrying the item's bytes and the
    /// new clock value as its offset.  The stream stays sorted by offset.
    pub fn log(&mut self, item: &[u8], elapsed: u64)
        requires
            old(self).wf(),
            old(self).rec_clock() + elapsed <= u64::MAX,
        ensures
            final(self).wf(),
            final(self).rec_clock() == old(self).rec_clock() + elapsed,
            final(self).recorded() == old(self).recorded().push(
                (item@, (old(self).rec_clock() + elapsed) as u64),
            ),
            sorted_by_time(final(self).recorded()),
            final(self).loaded() == old(self).loaded(),
            final(self).cursor() == old(self).cursor(),
            final(self).play_clock() == old(self).play_clock(),
    {
        self.log_current_duration = self.log_current_duration + elapsed;
        let entry = Log { item: slice_to_vec(item), time: self.log_current_duration };
        self.logs.logs.push(entry);
        proof {
            assert(self.recorded() =~= old(self).recorded().push(
                (item@, (old(self).rec_clock() + elapsed) as u64),
            ));
        }
    }

    /// Encodes the recorded stream to bytes, exactly as
    /// [`encoded_stream`] states; a host writes them to durable storage.
    pub fn save_logs(&self) -> (r: Vec<u8>)
        ensures
            r@ == encoded_stream(self.recorded()),
    {
        crate::codec::encode_log_file(&self.logs)
    }

    /// Loads a replay stream from encoded bytes: resets the player clock
    /// and the cursor to zero and installs the decoded stream.  Rejects
    /// bytes that are not a valid encoding and then leaves the whole
    /// engine untouched.
    pub fn load_replay(&mut self, data: &Vec<u8>) -> (r: Result<(), LogError>)
        requires
            old(self).wf(),
        ensures
            final(self).wf(),
            final(self).recorded() == old(self).recorded(),
            final(self).rec_clock() == old(self).rec_clock(),
            match r {
                Ok(_) => {
                    &&& parsed_stream(data@) matches Some(s) && final(self).loaded() == s
                    &&& final(self).cursor() == 0
                    &&& final(self).play_clock() == 0
                },
                Err(e) => {
                    &&& e == LogError::Malformed
                    &&& parsed_stream(data@) is None
                    &&& *final(self) == *old(self)
                },
            },
    {
        match crate::codec::decode_log_file(data) {
            Ok(f) => {
                self.replay_current_duration = 0;
                self.replay_idx = 0;
                self.replay_logs = f;
                Ok(())
            },
            Err(e) => Err(e),
        }
    }

    /// Polls for the next replay item: advances the player clock by
    /// `elapsed` nanoseconds, and if the entry under the cursor is due,
    /// copies its payload into the front of `buffer`, advances the cursor
    /// by exactly one, and returns the payload's length.  Returns
    /// `Ok(None)`, moving nothing, while no entry is due or the stream is
    /// exhausted.  Returns `Err(LogError::Capacity)` when the due entry's
    /// payload is longer than `buffer`, writing nothing and leaving the
    /// cursor in place.
    pub fn read_replay(&mut self, buffer: &mut Vec<u8>, elapsed: u64) -> (r: Result<
        Option<usize>,
        LogError,
    >)
        requires
            old(self).wf(),
            old(self).play_clock() + elapsed <= u64::MAX,
        ensures
            final(self).wf(),
            final(self).recorded() == old(self).recorded(),
            final(self).rec_clock() == old(self).rec_clock(),
            final(self).loaded() == old(self).loaded(),
            final(self).play_clock() == old(self).play_clock() + elapsed,
            ({
                let s = old(self).loaded();
                let cur = old(self).cursor();
                let clock = (old(self).play_clock() + elapsed) as u64;
                if !entry_due(s, cur, clock) {
                    &&& r == Ok::<Option<usize>, LogError>(None)
                    &&& final(self).cursor() == cur
                    &&& final(buffer)@ == old(buffer)@
                } else if s[cur].0.len() <= old(buffer)@.len() {
                    &&& r matches Ok(Some(count)) && count == s[cur].0.len()
                    &&& final(self).cursor() == cur + 1
                    &&& final(buffer)@ == s[cur].0 + old(buffer)@.skip(s[cur].0.len() as int)
                } else {
                    &&& r == Err::<Option<usize>, LogError>(LogError::Capacity)
                    &&& final(self).cursor() == cur
                    &&& final(buffer)@ == old(buffer)@
                }
            }),
    {
        self.replay_current_duration = self.replay_current_duration + elapsed;
        if self.replay_idx < self.replay_logs.logs.len() {
            let entry = &self.replay_logs.logs[self.replay_idx];
            let ghost payload = entry.item@;
            if entry.time <= self.replay_current_duration {
                let m = entry.item.len();
                if buffer.len() < m {
                    return Err(LogError::Capacity);
                }
                let mut c: usize = 0;
                while c < m
                    invariant
                        c <= m,
                        m == payload.len(),
                        payload == entry.item@,
                        m <= buffer@.len(),
                        buffer@.len() == old(buffer)@.len(),
                        forall|t: int| 0 <= t < c ==> buffer@[t] == payload[t],
                        forall|t: int| c <= t < buffer@.len() ==> buffer@[t] == old(buffer)@[t],
                    decreases m - c,
                {
                    buffer.set(c, entry.item[c]);
                    c = c + 1;
                }
                self.replay_idx = self.replay_idx + 1;
                proof {
                    assert(buffer@ =~= payload + old(buffer)@.skip(payload.len() as int));
                }
                return Ok(Some(m));
            }
        }
        Ok(None)
    }
}

/// Exhaustion: once the cursor has passed the last entry of the loaded
/// stream, no entry is ever due again, whatever the player clock reads; by
/// the contract of `read_replay`, every further poll then returns nothing
/// and leaves the cursor in place, until a new stream is loaded.
pub proof fn lemma_exhaustion(s: Seq<(Seq<u8>, u64)>, cursor: int, clock: u64)
    requires
        cursor >= s.len(),
    ensures
        !entry_due(s, cursor, clock),
{
}

/// Copies a byte slice into a fresh vector, byte for byte.
fn slice_to_vec(s: &[u8]) -> (r: Vec<u8>)
    ensures
        r@ == s@,
{
    let mut r: Vec<u8> = Vec::new();
    let n = s.len();
    let mut i: usize = 0;
    while i < n
        invariant
            i <= n,
            n == s@.len(),
            r@ == s@.take(i as int),
        decreases n - i,
    {
        r.push(s[i]);
        proof {
            assert(r@ =~= s@.take(i + 1));
        }
        i = i + 1;
    }
    proof {
        assert(s@.take(n as int) =~= s@);
    }
    r
}

} // verus!
