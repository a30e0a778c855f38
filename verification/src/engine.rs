use crate::history::{all_valid, enforce};
use crate::naming::{archive_name, spec_archive_name, ArchiveRecord};
use crate::timestamp::Timestamp;
use vstd::prelude::*;

verus! {

/// Where every written line is mirrored, besides the log file.
#[derive(Clone, Copy, Debug, PartialEq, Eq, Structural)]
pub enum Tee {
    Stdout,
    Stderr,
}

/// When the live log file is rotated.
#[derive(Clone, Copy, Debug, PartialEq, Eq, Structural)]
pub enum RotateMethod {
    /// Rotate once at least this many bytes were written since the live
    /// file was last opened or truncated. Must be at least 2: a threshold
    /// of 0 or 1 would rotate on every write or be meaningless.
    FileSize(u64),
}

/// What the caller must carry out after a rotation was committed: copy the
/// live file's bytes to `archive_name` in the log directory, truncate the
/// live file, hand the archive to a background compressor when `compress`
/// is set, and delete the files of each evicted record (best effort).
#[derive(Debug)]
pub struct RotationOutcome {
    pub archive_name: Vec<u8>,
    pub compress: bool,
    pub evicted: Vec<ArchiveRecord>,
}

/// Saturating byte accounting: sizes cap at `u64::MAX` instead of wrapping.
pub open spec fn sat_add(a: u64, b: int) -> u64 {
    if a + b <= u64::MAX {
        (a + b) as u64
    } else {
        u64::MAX
    }
}

/// The total of a sequence of write lengths.
pub open spec fn sum(writes: Seq<usize>) -> int
    decreases writes.len(),
{
    if writes.len() == 0 {
        0
    } else {
        sum(writes.drop_last()) + writes.last()
    }
}

/// The engine's size counter after a sequence of writes from a fresh file:
/// each write adds saturatingly, exactly as [`RotationEngine::note_write`]
/// does.
pub open spec fn sat_sum(writes: Seq<usize>) -> u64
    decreases writes.len(),
{
    if writes.len() == 0 {
        0
    } else {
        sat_add(sat_sum(writes.drop_last()), writes.last() as int)
    }
}

/// The rotation engine: the state the write path needs in order to decide
/// when to rotate and what a rotation does. It owns no file handle; the
/// caller performs the file work that [`RotationOutcome`] describes.
#[derive(Debug)]
pub struct RotationEngine {
    /// File name of the live log up to the extension.
    pub stem: Vec<u8>,
    /// Extension of the live log, leading dot included; may be empty.
    pub ext: Vec<u8>,
    pub rotate: Option<RotateMethod>,
    pub count: Option<usize>,
    pub compress: bool,
    pub tee: Option<Tee>,
    /// Bytes written since the live file was last opened or truncated.
    pub current_size: u64,
    /// Prior rotations, oldest first.
    pub history: Vec<ArchiveRecord>,
}

impl RotationEngine {
    /// Well-formedness: the policy invariants fixed at construction, and a
    /// history of valid records.
    pub open spec fn wf(self) -> bool {
        &&& match self.rotate {
            Some(RotateMethod::FileSize(t)) => t >= 2,
            None => true,
        }
        &&& match self.count {
            Some(c) => c >= 1 && self.rotate is Some,
            None => true,
        }
        &&& self.compress ==> self.rotate is Some
        &&& all_valid(self.history@)
    }

    /// The threshold decision: a rotation is due exactly when a size
    /// policy is configured and the bytes written since the last rotation
    /// (or startup) have reached it.
    pub open spec fn must_rotate(self) -> bool {
        match self.rotate {
            Some(RotateMethod::FileSize(t)) => self.current_size >= t,
            None => false,
        }
    }

    pub fn new(
        stem: Vec<u8>,
        ext: Vec<u8>,
        rotate: Option<RotateMethod>,
        count: Option<usize>,
        compress: bool,
        tee: Option<Tee>,
        history: Vec<ArchiveRecord>,
    ) -> (engine: RotationEngine)
        requires
            (match rotate {
                Some(RotateMethod::FileSize(t)) => t >= 2,
                None => true,
            }),
            (match count {
                Some(c) => c >= 1 && rotate is Some,
                None => true,
            }),
            compress ==> rotate is Some,
            all_valid(history@),
        ensures
            engine.wf(),
            !engine.must_rotate(),
            engine.stem@ == stem@,
            engine.ext@ == ext@,
            engine.rotate == rotate,
            engine.count == count,
            engine.compress == compress,
            engine.tee == tee,
            engine.current_size == 0,
            engine.history@ == history@,
    {
        RotationEngine { stem, ext, rotate, count, compress, tee, current_size: 0, history }
    }

    /// Executable form of [`RotationEngine::must_rotate`].
    pub fn should_rotate(&self) -> (r: bool)
        ensures
            r == self.must_rotate(),
    {
        match self.rotate {
            Some(RotateMethod::FileSize(t)) => self.current_size >= t,
            None => false,
        }
    }

    /// Accounts for `n` bytes just written to the live file and decides
    /// whether a rotation is due. Once it returns `true`, the caller must
    /// rotate before the next write is accounted: the precondition admits
    /// no further call until [`RotationEngine::rotate`] has run.
    pub fn note_write(&mut self, n: usize) -> (rotate_now: bool)
        requires
            old(self).wf(),
            !old(self).must_rotate(),
        ensures
            final(self).wf(),
            final(self).current_size == sat_add(old(self).current_size, n as int),
            rotate_now == final(self).must_rotate(),
            final(self).stem@ == old(self).stem@,
            final(self).ext@ == old(self).ext@,
            final(self).rotate == old(self).rotate,
            final(self).count == old(self).count,
            final(self).compress == old(self).compress,
            final(self).tee == old(self).tee,
            final(self).history@ == old(self).history@,
    {
        if n as u64 <= u64::MAX - self.current_size {
            self.current_size = self.current_size + n as u64;
        } else {
            self.current_size = u64::MAX;
        }
        self.should_rotate()
    }

    /// Commits a rotation at the instant `ts`: names the archive, appends
    /// it to the history, enforces the retention quota when one is set,
    /// and resets the size counter for the truncated live file. The
    /// returned outcome tells the caller which file work to perform; the
    /// archive is handed to the compressor exactly when compression was
    /// configured.
    pub fn rotate(&mut self, ts: &Timestamp) -> (out: RotationOutcome)
        requires
            old(self).wf(),
            old(self).must_rotate(),
            ts.valid(),
        ensures
            final(self).wf(),
            !final(self).must_rotate(),
            final(self).current_size == 0,
            out.archive_name@ == spec_archive_name(old(self).stem@, old(self).ext@, *ts),
            out.compress == old(self).compress,
            final(self).stem@ == old(self).stem@,
            final(self).ext@ == old(self).ext@,
            final(self).rotate == old(self).rotate,
            final(self).count == old(self).count,
            final(self).compress == old(self).compress,
            final(self).tee == old(self).tee,
            (match old(self).count {
                Some(c) => {
                    &&& old(self).history@ + seq![
                        (ArchiveRecord { timestamp: *ts, compressed: false }),
                    ] == out.evicted@ + final(self).history@
                    &&& final(self).history@.len() < c
                    &&& old(self).history@.len() + 1 >= c ==> final(self).history@.len() == (c
                        - 1) as int
                    &&& old(self).history@.len() + 1 < c ==> out.evicted@.len() == 0
                },
                None => {
                    &&& final(self).history@ == old(self).history@ + seq![
                        (ArchiveRecord { timestamp: *ts, compressed: false }),
                    ]
                    &&& out.evicted@.len() == 0
                },
            }),
    {
        let name = archive_name(&self.stem, &self.ext, ts);
        let rec = ArchiveRecord { timestamp: *ts, compressed: false };
        let ghost appended = old(self).history@.push(rec);
        proof {
            assert(old(self).history@ + seq![rec] =~= appended);
        }
        self.history.push(rec);
        let evicted: Vec<ArchiveRecord> = match self.count {
            Some(c) => enforce(&mut self.history, c),
            None => Vec::new(),
        };
        proof {
            assert(appended =~= evicted@ + self.history@);
            assert forall|j: int| 0 <= j < self.history@.len() implies (#[trigger] self.history@[j])
                .timestamp.valid() by {
                assert(self.history@[j] == appended[evicted@.len() + j]);
            }
        }
        self.current_size = 0;
        RotationOutcome { archive_name: name, compress: self.compress, evicted }
    }
}

/// Saturating accounting never hides a reached threshold: the counter is
/// the true total capped at `u64::MAX`.
proof fn lemma_sat_sum_is_capped_sum(writes: Seq<usize>)
    ensures
        sat_sum(writes) as int == if sum(writes) <= u64::MAX {
            sum(writes)
        } else {
            u64::MAX as int
        },
    decreases writes.len(),
{
    if writes.len() > 0 {
        lemma_sat_sum_is_capped_sum(writes.drop_last());
    }
}

/// Size-triggered rotation fires: once the writes since the last rotation
/// (or startup) total at least the configured threshold, the engine is
/// due for a rotation. The counter advances by [`sat_add`] on every
/// [`RotationEngine::note_write`], from 0, so it equals [`sat_sum`] of
/// those writes; `note_write` then reports the rotation, and its
/// precondition admits no further write before [`RotationEngine::rotate`]
/// has run: exactly one rotation happens before the next write returns.
pub proof fn lemma_writes_reach_threshold(engine: RotationEngine, writes: Seq<usize>, t: u64)
    requires
        engine.rotate == Some(RotateMethod::FileSize(t)),
        engine.current_size == sat_sum(writes),
        sum(writes) >= t,
    ensures
        engine.must_rotate(),
{
    lemma_sat_sum_is_capped_sum(writes);
}

} // verus!
