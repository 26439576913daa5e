//! The durable record of a run's progress, and the flags that pause and
//! cancel a run.
use vstd::prelude::*;
use sha2::Digest;
use std::sync::Arc;
use std::sync::atomic::{AtomicBool, Ordering};
use crate::writer::WrittenFile;

verus! {

/// Version of the checkpoint format.
pub const CHECKPOINT_VERSION: u32 = 1;

/// Name of the checkpoint file in the output directory.
pub const CHECKPOINT_FILENAME: &'static str = ".progress";

/// Name of the file a checkpoint is written to before it replaces the last.
pub const CHECKPOINT_TEMP_FILENAME: &'static str = ".progress.tmp";

/// Options of a run.
pub struct ProcessOptions {
    pub zip_files: Vec<String>,
    pub output: String,
    pub divide_to_dates: bool,
    pub skip_extras: bool,
    pub no_guess: bool,
    pub albums: bool,
    pub album_dest: String,
    pub album_link: bool,
    pub album_json: Option<String>,
    pub force: bool,
}

/// The album destination used when none is given: albums stay in the year
/// folders.
pub fn default_album_dest() -> (r: String)
    ensures
        r@ == "year"@,
{
    String::from_str("year")
}

/// The SHA-256 digest of a byte string.
pub uninterp spec fn sha256_of(bytes: Seq<u8>) -> Seq<u8>;

/// Relies on sha2's `Sha256::digest`: the 32-byte digest of the bytes.
#[verifier::external_body]
fn sha256(bytes: &[u8]) -> (r: Vec<u8>)
    ensures
        r@ == sha256_of(bytes@),
        r@.len() == 32,
{
    sha2::Sha256::digest(bytes).to_vec()
}

/// A lowercase hexadecimal digit.
pub open spec fn hex_digit(v: u8) -> char {
    if v < 10 { (('0' as u8) + v) as char } else { (('a' as u8) + v - 10) as char }
}

/// Lowercase hexadecimal text of bytes: two digits per byte, high first.
pub open spec fn hex_of(b: Seq<u8>) -> Seq<char>
    decreases b.len(),
{
    if b.len() == 0 {
        Seq::empty()
    } else {
        hex_of(b.drop_last()) + seq![hex_digit(b.last() / 16), hex_digit(b.last() % 16)]
    }
}

/// Relies on hex's `encode`: two lowercase hexadecimal digits per byte.
#[verifier::external_body]
fn hex_encode(b: &[u8]) -> (r: String)
    ensures
        r@ == hex_of(b@),
{
    hex::encode(b)
}

/// A flag as one byte of the options fingerprint.
pub open spec fn flag_byte(b: bool) -> u8 {
    if b { '1' as u8 } else { '0' as u8 }
}

/// The bytes that fingerprint the options that shape the output: the
/// flags date-split, skip-extras, no-guess and albums, the album
/// destination, the album-link flag, and the output path.
pub open spec fn options_message(o: ProcessOptions) -> Seq<u8> {
    seq![flag_byte(o.divide_to_dates), flag_byte(o.skip_extras), flag_byte(o.no_guess), flag_byte(o.albums)]
        + vstd::utf8::encode_utf8(o.album_dest@)
        + seq![flag_byte(o.album_link)]
        + vstd::utf8::encode_utf8(o.output@)
}

/// The options fingerprint: hex SHA-256 of the options message.
pub open spec fn spec_options_hash(o: ProcessOptions) -> Seq<char> {
    hex_of(sha256_of(options_message(o)))
}

fn flag(b: bool) -> (r: u8)
    ensures
        r == flag_byte(b),
{
    if b { '1' as u8 } else { '0' as u8 }
}

/// Compute the fingerprint of the options that affect the output layout.
pub fn compute_options_hash(options: &ProcessOptions) -> (r: String)
    ensures
        r@ == spec_options_hash(*options),
{
    let mut msg: Vec<u8> = Vec::new();
    msg.push(flag(options.divide_to_dates));
    msg.push(flag(options.skip_extras));
    msg.push(flag(options.no_guess));
    msg.push(flag(options.albums));
    msg.extend_from_slice(options.album_dest.as_str().as_bytes());
    msg.push(flag(options.album_link));
    msg.extend_from_slice(options.output.as_str().as_bytes());
    assert(msg@ =~= options_message(*options));
    let digest = sha256(msg.as_slice());
    hex_encode(digest.as_slice())
}

/// The durable record of a run.
pub struct Checkpoint {
    pub version: u32,
    /// When it was last changed, in UNIX seconds.
    pub timestamp: i64,
    pub options_hash: String,
    pub zip_files: Vec<String>,
    pub zip_mtimes: Vec<i64>,
    pub written_files: Vec<WrittenFile>,
    pub last_stage: String,
    pub completed: bool,
}

/// The archive lists are equal, path by path.
pub open spec fn same_paths(a: Seq<String>, b: Seq<String>) -> bool {
    a.len() == b.len() && forall|i: int| 0 <= i < a.len() ==> #[trigger] a[i]@ == b[i]@
}

fn strings_equal(a: &Vec<String>, b: &Vec<String>) -> (r: bool)
    ensures
        r == same_paths(a@, b@),
{
    if a.len() != b.len() {
        return false;
    }
    let mut i: usize = 0;
    while i < a.len()
        invariant
            a@.len() == b@.len(),
            i <= a@.len(),
            forall|k: int| 0 <= k < i ==> #[trigger] a@[k]@ == b@[k]@,
        decreases a@.len() - i,
    {
        if !a[i].eq(&b[i]) {
            return false;
        }
        i += 1;
    }
    true
}

fn mtimes_equal(a: &[i64], b: &[i64]) -> (r: bool)
    ensures
        r == (a@ == b@),
{
    if a.len() != b.len() {
        return false;
    }
    let mut i: usize = 0;
    while i < a.len()
        invariant
            a@.len() == b@.len(),
            i <= a@.len(),
            forall|k: int| 0 <= k < i ==> a@[k] == b@[k],
        decreases a@.len() - i,
    {
        if a[i] != b[i] {
            return false;
        }
        i += 1;
    }
    assert(a@ =~= b@);
    true
}

/// A checkpoint can be resumed under the options and archive times of a
/// new run.
pub open spec fn spec_is_compatible(c: Checkpoint, options: ProcessOptions, mtimes: Seq<i64>) -> bool {
    &&& c.version == CHECKPOINT_VERSION
    &&& !c.completed
    &&& c.options_hash@ == spec_options_hash(options)
    &&& same_paths(c.zip_files@, options.zip_files@)
    &&& c.zip_mtimes@ == mtimes
}

impl Checkpoint {
    /// A fresh checkpoint for a run with these options; `zip_mtimes` are the
    /// archives' modification times and `now` the current UNIX time.
    pub fn new(options: &ProcessOptions, zip_mtimes: Vec<i64>, now: i64) -> (r: Self)
        ensures
            r.version == CHECKPOINT_VERSION,
            r.timestamp == now,
            r.options_hash@ == spec_options_hash(*options),
            same_paths(r.zip_files@, options.zip_files@),
            r.zip_mtimes@ == zip_mtimes@,
            r.written_files@.len() == 0,
            r.last_stage@.len() == 0,
            !r.completed,
    {
        let mut files: Vec<String> = Vec::new();
        let mut i: usize = 0;
        while i < options.zip_files.len()
            invariant
                i <= options.zip_files@.len(),
                files@.len() == i,
                forall|k: int| 0 <= k < i ==> #[trigger] files@[k]@ == options.zip_files@[k]@,
            decreases options.zip_files@.len() - i,
        {
            files.push(options.zip_files[i].clone());
            i += 1;
        }
        Checkpoint {
            version: CHECKPOINT_VERSION,
            timestamp: now,
            options_hash: compute_options_hash(options),
            zip_files: files,
            zip_mtimes,
            written_files: Vec::new(),
            last_stage: String::new(),
            completed: false,
        }
    }

    /// Whether this checkpoint may be resumed: same format version, not
    /// completed, same layout options, same archives with the same
    /// modification times (`current_mtimes`).
    pub fn is_compatible(&self, options: &ProcessOptions, current_mtimes: &[i64]) -> (r: bool)
        ensures
            r == spec_is_compatible(*self, *options, current_mtimes@),
    {
        if self.version != CHECKPOINT_VERSION {
            return false;
        }
        if self.completed {
            return false;
        }
        let current = compute_options_hash(options);
        if !self.options_hash.eq(&current) {
            return false;
        }
        if !strings_equal(&self.zip_files, &options.zip_files) {
            return false;
        }
        mtimes_equal(self.zip_mtimes.as_slice(), current_mtimes)
    }

    /// Record a file as written.
    pub fn mark_written(&mut self, zip_path: &str, output_path: &str, size: u64, now: i64)
        ensures
            final(self).written_files@.len() == old(self).written_files@.len() + 1,
            forall|i: int| 0 <= i < old(self).written_files@.len() ==> final(self).written_files@[i] == old(self).written_files@[i],
            final(self).written_files@.last().zip_path@ == zip_path@,
            final(self).written_files@.last().output_path@ == output_path@,
            final(self).written_files@.last().size == size,
            final(self).timestamp == now,
            final(self).version == old(self).version,
            final(self).options_hash == old(self).options_hash,
            final(self).zip_files == old(self).zip_files,
            final(self).zip_mtimes == old(self).zip_mtimes,
            final(self).last_stage == old(self).last_stage,
            final(self).completed == old(self).completed,
    {
        self.written_files.push(WrittenFile {
            zip_path: String::from_str(zip_path),
            output_path: String::from_str(output_path),
            size,
        });
        self.timestamp = now;
    }

    /// Update the last stage marker.
    pub fn set_stage(&mut self, stage: &str, now: i64)
        ensures
            final(self).last_stage@ == stage@,
            final(self).timestamp == now,
            final(self).version == old(self).version,
            final(self).options_hash == old(self).options_hash,
            final(self).zip_files == old(self).zip_files,
            final(self).zip_mtimes == old(self).zip_mtimes,
            final(self).completed == old(self).completed,
            final(self).written_files == old(self).written_files,
    {
        self.last_stage = String::from_str(stage);
        self.timestamp = now;
    }

    /// Mark processing as completed.
    pub fn mark_completed(&mut self, now: i64)
        ensures
            final(self).completed,
            final(self).timestamp == now,
            final(self).version == old(self).version,
            final(self).options_hash == old(self).options_hash,
            final(self).zip_files == old(self).zip_files,
            final(self).zip_mtimes == old(self).zip_mtimes,
            final(self).last_stage == old(self).last_stage,
            final(self).written_files == old(self).written_files,
    {
        self.completed = true;
        self.timestamp = now;
    }

    /// The files recorded as written.
    pub fn get_written_map(&self) -> (r: &[WrittenFile])
        ensures
            r@ == self.written_files@,
    {
        self.written_files.as_slice()
    }
}

/// Milliseconds between throttled checkpoint saves.
pub const SAVE_INTERVAL_MS: u64 = 5000;

/// Files written between throttled checkpoint saves.
pub const SAVE_EVERY_FILES: usize = 100;

/// Keeps the checkpoint of a run and decides when it is due to be saved:
/// after 5 s or 100 files since the last save, whichever comes first.
pub struct CheckpointSaver {
    checkpoint: Checkpoint,
    output_dir: String,
    last_save_ms: u64,
    files_since_save: usize,
}

impl CheckpointSaver {
    /// The checkpoint held.
    pub closed spec fn spec_checkpoint(&self) -> Checkpoint {
        self.checkpoint
    }

    /// Files marked since the last save.
    pub closed spec fn spec_files_since_save(&self) -> usize {
        self.files_since_save
    }

    /// When the last save happened, in milliseconds of the run's clock.
    pub closed spec fn spec_last_save_ms(&self) -> u64 {
        self.last_save_ms
    }

    /// A saver for `checkpoint` in `output_dir`, counting from `now_ms`.
    pub fn new(checkpoint: Checkpoint, output_dir: String, now_ms: u64) -> (r: Self)
        ensures
            r.spec_checkpoint() == checkpoint,
            r.spec_files_since_save() == 0,
            r.spec_last_save_ms() == now_ms,
    {
        CheckpointSaver { checkpoint, output_dir, last_save_ms: now_ms, files_since_save: 0 }
    }

    /// A saver that resumes from an existing checkpoint.
    pub fn from_existing(checkpoint: Checkpoint, output_dir: String, now_ms: u64) -> (r: Self)
        ensures
            r.spec_checkpoint() == checkpoint,
            r.spec_files_since_save() == 0,
            r.spec_last_save_ms() == now_ms,
    {
        Self::new(checkpoint, output_dir, now_ms)
    }

    /// Record a written file; the result says whether the checkpoint is now
    /// due to be saved.
    pub fn mark_written(&mut self, zip_path: &str, output_path: &str, size: u64, now: i64, now_ms: u64) -> (due: bool)
        ensures
            final(self).spec_checkpoint().written_files@.len() == old(self).spec_checkpoint().written_files@.len() + 1,
            final(self).spec_checkpoint().written_files@.last().zip_path@ == zip_path@,
            final(self).spec_checkpoint().written_files@.last().output_path@ == output_path@,
            final(self).spec_checkpoint().written_files@.last().size == size,
            forall|i: int| 0 <= i < old(self).spec_checkpoint().written_files@.len()
                ==> final(self).spec_checkpoint().written_files@[i] == old(self).spec_checkpoint().written_files@[i],
            final(self).spec_checkpoint().options_hash == old(self).spec_checkpoint().options_hash,
            final(self).spec_checkpoint().zip_files == old(self).spec_checkpoint().zip_files,
            final(self).spec_checkpoint().zip_mtimes == old(self).spec_checkpoint().zip_mtimes,
            final(self).spec_checkpoint().last_stage == old(self).spec_checkpoint().last_stage,
            final(self).spec_checkpoint().completed == old(self).spec_checkpoint().completed,
            final(self).spec_last_save_ms() == old(self).spec_last_save_ms(),
            final(self).spec_files_since_save() as int == if old(self).spec_files_since_save() == usize::MAX {
                usize::MAX as int
            } else {
                old(self).spec_files_since_save() + 1
            },
            due == (now_ms >= old(self).spec_last_save_ms() + SAVE_INTERVAL_MS
                || final(self).spec_files_since_save() >= SAVE_EVERY_FILES),
    {
        self.checkpoint.mark_written(zip_path, output_path, size, now);
        if self.files_since_save < usize::MAX {
            self.files_since_save += 1;
        }
        (now_ms >= self.last_save_ms && now_ms - self.last_save_ms >= SAVE_INTERVAL_MS)
            || self.files_since_save >= SAVE_EVERY_FILES
    }

    /// Note that the checkpoint was just saved.
    pub fn saved(&mut self, now_ms: u64)
        ensures
            final(self).spec_checkpoint() == old(self).spec_checkpoint(),
            final(self).spec_files_since_save() == 0,
            final(self).spec_last_save_ms() == now_ms,
    {
        self.last_save_ms = now_ms;
        self.files_since_save = 0;
    }

    /// Set the current stage.
    pub fn set_stage(&mut self, stage: &str, now: i64)
        ensures
            final(self).spec_checkpoint().last_stage@ == stage@,
            final(self).spec_checkpoint().written_files == old(self).spec_checkpoint().written_files,
            final(self).spec_checkpoint().options_hash == old(self).spec_checkpoint().options_hash,
            final(self).spec_checkpoint().zip_files == old(self).spec_checkpoint().zip_files,
            final(self).spec_checkpoint().zip_mtimes == old(self).spec_checkpoint().zip_mtimes,
            final(self).spec_checkpoint().completed == old(self).spec_checkpoint().completed,
            final(self).spec_files_since_save() == old(self).spec_files_since_save(),
            final(self).spec_last_save_ms() == old(self).spec_last_save_ms(),
    {
        self.checkpoint.set_stage(stage, now);
    }

    /// Mark the run as completed.
    pub fn mark_completed(&mut self, now: i64)
        ensures
            final(self).spec_checkpoint().completed,
            final(self).spec_checkpoint().written_files == old(self).spec_checkpoint().written_files,
            final(self).spec_checkpoint().options_hash == old(self).spec_checkpoint().options_hash,
            final(self).spec_checkpoint().zip_files == old(self).spec_checkpoint().zip_files,
            final(self).spec_checkpoint().zip_mtimes == old(self).spec_checkpoint().zip_mtimes,
            final(self).spec_checkpoint().last_stage == old(self).spec_checkpoint().last_stage,
            final(self).spec_files_since_save() == old(self).spec_files_since_save(),
            final(self).spec_last_save_ms() == old(self).spec_last_save_ms(),
    {
        self.checkpoint.mark_completed(now);
    }

    /// The files recorded as written.
    pub fn get_written_map(&self) -> (r: &[WrittenFile])
        ensures
            r@ == self.spec_checkpoint().written_files@,
    {
        self.checkpoint.get_written_map()
    }

    /// The checkpoint held.
    pub fn checkpoint(&self) -> (r: &Checkpoint)
        ensures
            *r == self.spec_checkpoint(),
    {
        &self.checkpoint
    }

    /// The output directory the checkpoint is saved in.
    pub fn output_dir(&self) -> &str {
        self.output_dir.as_str()
    }
}

/// Flags for cooperative cancellation and pausing, shared by clones.
#[derive(Clone, Debug)]
pub struct CancellationToken {
    cancelled: Arc<AtomicBool>,
    paused: Arc<AtomicBool>,
}

impl CancellationToken {
    /// A token that is neither cancelled nor paused.
    pub fn new() -> Self {
        CancellationToken { cancelled: Arc::new(AtomicBool::new(false)), paused: Arc::new(AtomicBool::new(false)) }
    }

    /// Request cancellation.
    pub fn cancel(&self) {
        self.cancelled.store(true, Ordering::SeqCst);
    }

    /// Whether cancellation was requested.
    pub fn is_cancelled(&self) -> bool {
        self.cancelled.load(Ordering::SeqCst)
    }

    /// Set the paused state.
    pub fn set_paused(&self, paused: bool) {
        self.paused.store(paused, Ordering::SeqCst);
    }

    /// Whether the run is paused.
    pub fn is_paused(&self) -> bool {
        self.paused.load(Ordering::SeqCst)
    }
}

/// What a worker does at a check point.
#[derive(Clone, Copy, Debug, PartialEq, Eq, Structural)]
pub enum CheckStep {
    /// Stop: the run was cancelled.
    Cancelled,
    /// Sleep one tick, then check again.
    Wait,
    /// Go on with the next unit of work.
    Proceed,
}

/// The decision at a check point: cancellation wins over pausing; a paused
/// run waits.
pub fn check_step(cancelled: bool, paused: bool) -> (r: CheckStep)
    ensures
        cancelled ==> r == CheckStep::Cancelled,
        !cancelled && paused ==> r == CheckStep::Wait,
        !cancelled && !paused ==> r == CheckStep::Proceed,
{
    if cancelled {
        CheckStep::Cancelled
    } else if paused {
        CheckStep::Wait
    } else {
        CheckStep::Proceed
    }
}

/// The error of a cancelled run.
#[derive(Clone, Debug)]
pub struct CancelledError;

impl CancelledError {
    /// The message of the error.
    pub fn message(&self) -> (r: String)
        ensures
            r@ == "Operation cancelled"@,
    {
        String::from_str("Operation cancelled")
    }
}


/// A checkpoint made for some options and archive times is compatible with
/// exactly the runs whose layout options fingerprint the same, whose
/// archives are the same, and whose archive times are the same; it stops
/// being compatible once completed.
pub proof fn lemma_checkpoint_compatibility(c: Checkpoint, made_for: ProcessOptions, mtimes: Seq<i64>, run: ProcessOptions, run_mtimes: Seq<i64>)
    requires
        c.version == CHECKPOINT_VERSION,
        c.options_hash@ == spec_options_hash(made_for),
        same_paths(c.zip_files@, made_for.zip_files@),
        c.zip_mtimes@ == mtimes,
    ensures
        spec_is_compatible(c, run, run_mtimes) <==> (!c.completed
            && spec_options_hash(run) == spec_options_hash(made_for)
            && same_paths(made_for.zip_files@, run.zip_files@)
            && run_mtimes == mtimes),
{
    if same_paths(c.zip_files@, run.zip_files@) {
        assert forall|i: int| 0 <= i < made_for.zip_files@.len() implies #[trigger] made_for.zip_files@[i]@ == run.zip_files@[i]@ by {
            assert(c.zip_files@[i]@ == made_for.zip_files@[i]@);
        }
    }
    if same_paths(made_for.zip_files@, run.zip_files@) {
        assert forall|i: int| 0 <= i < c.zip_files@.len() implies #[trigger] c.zip_files@[i]@ == run.zip_files@[i]@ by {
            assert(c.zip_files@[i]@ == made_for.zip_files@[i]@);
        }
    }
}

} // verus!
