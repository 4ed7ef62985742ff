//! Sizes as people read them, the look into a content that tells text from
//! binary data, how files stand to the index, and the choice among the
//! versions of a path.

use vstd::prelude::*;
use crate::db::{latest, Database, Row, Selector};
use crate::error::EngineError;
use crate::snapshot::Snapshot;
use crate::text::{chars_of, numeral, push_numeral, push_str, same_chars, signed_numeral,
    string_of, texts};

verus! {

/// The bytes of a kilobyte.
pub const KB: u64 = 1024;

/// The bytes of a megabyte.
pub const MB: u64 = 1048576;

/// The bytes of a gigabyte.
pub const GB: u64 = 1073741824;

/// The least magnitude that a double-precision number cannot hold exactly
/// together with its neighbours: two to the power of 53.
pub const EXACT_LIMIT: u64 = 9007199254740992;

/// How far apart the double-precision numbers lie around the magnitude
/// `m`.
pub open spec fn float_step(m: nat) -> nat
    decreases m,
{
    if m < EXACT_LIMIT {
        1
    } else {
        2 * float_step(m / 2)
    }
}

/// `n` rounded to a multiple of `step`, to the nearer one; midway, to the
/// one that is an even multiple.
pub open spec fn rounded_to(n: nat, step: nat) -> nat {
    let below = n / step;
    let rest = n % step;
    if 2 * rest > step || (2 * rest == step && below % 2 == 1) {
        (below + 1) * step
    } else {
        below * step
    }
}

/// The double-precision number nearest to `n`, which is an integer: the
/// value as which a size enters every calculation here.
pub open spec fn as_float(n: int) -> int {
    if n < 0 {
        -(rounded_to((-n) as nat, float_step((-n) as nat)) as int)
    } else {
        rounded_to(n as nat, float_step(n as nat)) as int
    }
}

/// The hundredths in `value / unit`, rounded to the nearer whole; midway,
/// to the even one.
pub open spec fn hundredths(value: nat, unit: nat) -> nat {
    rounded_to(value * 100, unit) / unit
}

/// A number of hundredths written with two decimals.
pub open spec fn two_decimals(h: nat) -> Seq<char> {
    numeral(h / 100) + seq!['.'] + numeral(h % 100 / 10) + numeral(h % 10)
}

/// A size as people read it: in bytes below a kilobyte, else in the
/// largest of kilobyte, megabyte and gigabyte that it reaches, with two
/// decimals.
pub open spec fn size_label(size: int) -> Seq<char> {
    let value = as_float(size);
    if value >= GB {
        two_decimals(hundredths(value as nat, GB as nat)) + " GB"@
    } else if value >= MB {
        two_decimals(hundredths(value as nat, MB as nat)) + " MB"@
    } else if value >= KB {
        two_decimals(hundredths(value as nat, KB as nat)) + " KB"@
    } else {
        signed_numeral(value) + " B"@
    }
}

/// The spacing of double-precision numbers around `m`.
fn step_of(m: u64) -> (step: u64)
    ensures
        step == float_step(m as nat),
        1 <= step <= 4096,
        m >= EXACT_LIMIT ==> step * 4503599627370496 <= m,
    decreases m,
{
    if m < EXACT_LIMIT {
        1
    } else {
        let half = step_of(m / 2);
        assert(half * 4503599627370496 <= m / 2);
        2 * half
    }
}

/// `n` rounded to a multiple of `step`.
fn round_to(n: u128, step: u128) -> (out: u128)
    requires
        0 < step <= u64::MAX,
        n + step <= u128::MAX,
    ensures
        out == rounded_to(n as nat, step as nat),
{
    let below = n / step;
    let rest = n % step;
    assert(below * step <= n) by (nonlinear_arith)
        requires
            below == n / step,
            step > 0,
    ;
    if 2 * rest > step || (2 * rest == step && below % 2 == 1) {
        assert((below + 1) * step <= n + step) by (nonlinear_arith)
            requires
                below * step <= n,
        ;
        (below + 1) * step
    } else {
        below * step
    }
}

/// The magnitude of `size` as a double-precision number holds it.
fn float_magnitude(size: i64) -> (value: u64)
    ensures
        size >= 0 ==> value == as_float(size as int),
        size < 0 ==> value == -as_float(size as int),
        value <= 9223372036854775808,
{
    let magnitude: u64 = if size < 0 {
        ((-(size + 1)) as u64) + 1
    } else {
        size as u64
    };
    let step = step_of(magnitude);
    let out = round_to(magnitude as u128, step as u128);
    proof {
        lemma_rounded_bound(magnitude as nat);
    }
    out as u64
}

/// Rounding a 64-bit magnitude to the double-precision numbers around it
/// does not lead beyond two to the power of 63 when it began below or at
/// that.
proof fn lemma_rounded_bound(m: nat)
    requires
        m <= 9223372036854775808,
    ensures
        rounded_to(m, float_step(m)) <= 9223372036854775808,
{
    let step = float_step(m);
    lemma_step_divides_limit(m);
    let limit: nat = 9223372036854775808;
    let k = limit / step;
    assert(k * step == limit);
    let below = m / step;
    let rest = m % step;
    assert(m == below * step + rest && rest < step) by (nonlinear_arith)
        requires
            below == m / step,
            rest == m % step,
            step > 0,
    ;
    assert(below <= k) by (nonlinear_arith)
        requires
            below * step + rest <= k * step,
            step > 0,
    ;
    if rest > 0 {
        assert(below + 1 <= k) by (nonlinear_arith)
            requires
                below * step + rest <= k * step,
                rest > 0,
                step > 0,
        ;
    }
    assert(below * step <= k * step) by (nonlinear_arith)
        requires
            below <= k,
    ;
    if rest > 0 {
        assert((below + 1) * step <= k * step) by (nonlinear_arith)
            requires
                below + 1 <= k,
        ;
    }
}

/// The spacing around a 64-bit magnitude is a power of two up to 2048,
/// which divides two to the power of 63.
proof fn lemma_step_divides_limit(m: nat)
    requires
        m <= 9223372036854775808,
    ensures
        float_step(m) > 0,
        9223372036854775808nat % float_step(m) == 0,
        (9223372036854775808nat / float_step(m)) * float_step(m) == 9223372036854775808nat,
{
    reveal_with_fuel(float_step, 13);
    let s = float_step(m);
    assert(s == 1 || s == 2 || s == 4 || s == 8 || s == 16 || s == 32 || s == 64 || s == 128 || s
        == 256 || s == 512 || s == 1024 || s == 2048);
}

/// Appends `value / unit` with two decimals.
fn push_two_decimals(out: &mut Vec<char>, value: u64, unit: u64)
    requires
        unit == KB || unit == MB || unit == GB,
        value <= 9223372036854775808,
    ensures
        final(out)@ == old(out)@ + two_decimals(hundredths(value as nat, unit as nat)),
{
    let scaled = round_to((value as u128) * 100, unit as u128);
    let h = scaled / (unit as u128);
    assert(h <= u64::MAX) by {
        assert(scaled <= (value as u128) * 100 + unit);
    }
    let h = h as u64;
    let ghost before = out@;
    push_numeral(out, h / 100);
    out.push('.');
    push_numeral(out, h % 100 / 10);
    push_numeral(out, h % 10);
    assert(out@ =~= before + two_decimals(h as nat));
}

/// A size as people read it.
pub fn format_size(size: i64) -> (label: String)
    ensures
        label@ == size_label(size as int),
{
    let mut out: Vec<char> = Vec::new();
    if size < 0 {
        let value = float_magnitude(size);
        if value > 0 {
            out.push('-');
        }
        push_numeral(&mut out, value);
        push_str(&mut out, " B");
        assert(out@ =~= size_label(size as int));
    } else {
        let value = float_magnitude(size);
        if value >= GB {
            push_two_decimals(&mut out, value, GB);
            push_str(&mut out, " GB");
        } else if value >= MB {
            push_two_decimals(&mut out, value, MB);
            push_str(&mut out, " MB");
        } else if value >= KB {
            push_two_decimals(&mut out, value, KB);
            push_str(&mut out, " KB");
        } else {
            push_numeral(&mut out, value);
            push_str(&mut out, " B");
        }
        assert(out@ =~= size_label(size as int));
    }
    string_of(out.as_slice())
}

/// How much of a content is looked at to tell text from binary data.
pub const SNIFF_LEN: usize = 512;

/// A zero byte stands among the first 512 bytes of `content`. Content
/// with such a byte counts as binary; a zero byte further on goes unseen.
pub open spec fn looks_binary(content: Seq<u8>) -> bool {
    exists|i: int| 0 <= i < content.len() && i < SNIFF_LEN && content[i] == 0
}

/// Whether `content` counts as binary.
pub fn is_binary(content: &[u8]) -> (binary: bool)
    ensures
        binary == looks_binary(content@),
{
    let mut i: usize = 0;
    while i < content.len() && i < SNIFF_LEN
        invariant
            i <= content.len(),
            i <= SNIFF_LEN,
            forall|k: int| 0 <= k < i ==> content@[k] != 0,
        decreases content.len() - i,
    {
        if content[i] == 0 {
            return true;
        }
        i += 1;
    }
    false
}

/// `String::from_utf8`: the text that `bytes` encode, where they are valid
/// UTF-8, and nothing where they are not.
#[verifier::external_body]
pub(crate) fn utf8_text(bytes: Vec<u8>) -> (text: Option<String>)
    ensures
        text is Some == vstd::utf8::valid_utf8(bytes@),
        text matches Some(found) ==> found@ == vstd::utf8::decode_utf8(bytes@),
{
    String::from_utf8(bytes).ok()
}

/// What a content shows to someone who wants to read it.
#[derive(Debug)]
pub enum ViewOutcome {
    /// The content counts as binary.
    Binary,
    /// The content is this text.
    Text(String),
    /// The content does not count as binary and is no valid UTF-8 either.
    Undecodable,
}

/// A content of `size` bytes is beyond a limit of `max_size` megabytes.
pub open spec fn beyond_limit(size: int, max_size: int) -> bool {
    size > max_size * MB
}

/// Whether a content of `size` bytes is beyond a limit of `max_size`
/// megabytes.
pub fn exceeds_limit(size: u64, max_size: u64) -> (beyond: bool)
    ensures
        beyond == beyond_limit(size as int, max_size as int),
{
    if max_size > u64::MAX / MB {
        false
    } else {
        size > max_size * MB
    }
}

/// What the text question of a content comes to, given what it decodes
/// to.
pub fn shown_as(binary: bool, text: Option<String>) -> (outcome: ViewOutcome)
    ensures
        outcome == if binary {
            ViewOutcome::Binary
        } else {
            match text {
                Some(found) => ViewOutcome::Text(found),
                None => ViewOutcome::Undecodable,
            }
        },
{
    if binary {
        ViewOutcome::Binary
    } else {
        match text {
            Some(found) => ViewOutcome::Text(found),
            None => ViewOutcome::Undecodable,
        }
    }
}

/// What `content` shows: binary data, text, or neither.
pub fn view_content(content: Vec<u8>) -> (outcome: ViewOutcome)
    ensures
        looks_binary(content@) ==> outcome is Binary,
        !looks_binary(content@) && vstd::utf8::valid_utf8(content@) ==> (
        outcome matches ViewOutcome::Text(text) && text@ == vstd::utf8::decode_utf8(content@)),
        !looks_binary(content@) && !vstd::utf8::valid_utf8(content@) ==> outcome is Undecodable,
{
    let binary = is_binary(content.as_slice());
    shown_as(binary, utf8_text(content))
}

/// What a path to be captured is.
#[derive(Clone, Copy, Debug, PartialEq, Eq, Structural)]
pub enum Target {
    /// A regular file.
    File,
    /// A directory.
    Directory,
}

/// Accepts a path that exists and turns away one that does not.
pub fn validate_path(exists: bool) -> (outcome: Result<(), EngineError>)
    ensures
        exists ==> outcome is Ok,
        !exists ==> outcome matches Err(EngineError::PathInvalid),
{
    if exists {
        Ok(())
    } else {
        Err(EngineError::PathInvalid)
    }
}

/// Accepts a path to capture as a single file: one that exists and is a
/// regular file. Any other path is invalid, and nothing is captured.
pub fn file_target(exists: bool, is_file: bool) -> (outcome: Result<(), EngineError>)
    ensures
        exists && is_file ==> outcome is Ok,
        !(exists && is_file) ==> outcome matches Err(EngineError::PathInvalid),
{
    if exists && is_file {
        Ok(())
    } else {
        Err(EngineError::PathInvalid)
    }
}

/// What a path to be captured is, given what the file system says of it.
/// A path that does not exist, or that is neither a file nor a directory,
/// is invalid.
pub fn capture_target(exists: bool, is_file: bool, is_dir: bool) -> (outcome: Result<
    Target,
    EngineError,
>)
    ensures
        outcome == if exists && is_file {
            Ok::<Target, EngineError>(Target::File)
        } else if exists && is_dir {
            Ok::<Target, EngineError>(Target::Directory)
        } else {
            Err::<Target, EngineError>(EngineError::PathInvalid)
        },
{
    if exists && is_file {
        Ok(Target::File)
    } else if exists && is_dir {
        Ok(Target::Directory)
    } else {
        Err(EngineError::PathInvalid)
    }
}

/// How a file stands to the index.
#[derive(Clone, Copy, Debug, PartialEq, Eq, Structural)]
pub enum FileStatus {
    /// The latest capture of the file has the fingerprint that the file has
    /// now.
    Unchanged,
    /// The latest capture of the file has another fingerprint.
    Modified,
    /// The file was never captured.
    NoSnapshot,
    /// The file was found in a directory and was never captured.
    New,
}

/// How a file at `path` with the fingerprint `fingerprint` stands to the
/// index.
pub open spec fn status_of(rows: Seq<Row>, path: Seq<char>, fingerprint: Seq<char>) -> FileStatus {
    match latest(rows, path) {
        Some(row) => if row.record.checksum == fingerprint {
            FileStatus::Unchanged
        } else {
            FileStatus::Modified
        },
        None => FileStatus::NoSnapshot,
    }
}

/// How a file found in a directory stands to the index.
pub open spec fn status_in_directory(
    rows: Seq<Row>,
    path: Seq<char>,
    fingerprint: Seq<char>,
) -> FileStatus {
    match status_of(rows, path, fingerprint) {
        FileStatus::NoSnapshot => FileStatus::New,
        status => status,
    }
}

/// How many of `statuses` are `wanted`.
pub open spec fn count_of(statuses: Seq<(String, FileStatus)>, wanted: FileStatus) -> nat
    decreases statuses.len(),
{
    if statuses.len() == 0 {
        0
    } else if statuses.last().1 == wanted {
        count_of(statuses.drop_last(), wanted) + 1
    } else {
        count_of(statuses.drop_last(), wanted)
    }
}

/// How the file at `path`, whose content now has the fingerprint
/// `fingerprint`, stands to the index.
pub fn check_path(path: &str, fingerprint: &str, db: &Database) -> (status: FileStatus)
    ensures
        status == status_of(db.rows(), path@, fingerprint@),
{
    match db.resolve_version(path, &Selector::Latest) {
        Ok(snapshot) => {
            if same_chars(
                chars_of(snapshot.checksum.as_str()).as_slice(),
                chars_of(fingerprint).as_slice(),
            ) {
                FileStatus::Unchanged
            } else {
                FileStatus::Modified
            }
        },
        Err(_) => FileStatus::NoSnapshot,
    }
}

/// How the files of a directory stand to the index.
#[derive(Debug)]
pub struct CheckReport {
    /// Each file with its status, in the order in which they were found.
    pub statuses: Vec<(String, FileStatus)>,
    /// How many files are unchanged.
    pub unchanged: usize,
    /// How many files are modified.
    pub modified: usize,
    /// How many files were never captured.
    pub new: usize,
}

impl CheckReport {
    /// The counts are those of the statuses.
    pub open spec fn wf(&self) -> bool {
        &&& self.unchanged == count_of(self.statuses@, FileStatus::Unchanged)
        &&& self.modified == count_of(self.statuses@, FileStatus::Modified)
        &&& self.new == count_of(self.statuses@, FileStatus::New)
    }
}

/// How the files `found` stand to the index. `found` holds, for each file
/// that a walk came upon, its path and the fingerprint of its content as
/// it is now.
pub fn check_directory(found: &Vec<(String, String)>, db: &Database) -> (report: CheckReport)
    ensures
        report.wf(),
        report.statuses@.len() == found@.len(),
        forall|i: int|
            0 <= i < found@.len() ==> (#[trigger] report.statuses@[i]).0@ == found@[i].0@
                && report.statuses@[i].1 == status_in_directory(
                db.rows(),
                found@[i].0@,
                found@[i].1@,
            ),
{
    let mut statuses: Vec<(String, FileStatus)> = Vec::new();
    let mut unchanged: usize = 0;
    let mut modified: usize = 0;
    let mut new: usize = 0;
    let mut i: usize = 0;
    while i < found.len()
        invariant
            i <= found.len(),
            statuses@.len() == i,
            unchanged <= i,
            modified <= i,
            new <= i,
            unchanged == count_of(statuses@, FileStatus::Unchanged),
            modified == count_of(statuses@, FileStatus::Modified),
            new == count_of(statuses@, FileStatus::New),
            forall|k: int|
                0 <= k < i ==> (#[trigger] statuses@[k]).0@ == found@[k].0@ && statuses@[k].1
                    == status_in_directory(db.rows(), found@[k].0@, found@[k].1@),
        decreases found.len() - i,
    {
        let status = match check_path(found[i].0.as_str(), found[i].1.as_str(), db) {
            FileStatus::NoSnapshot => FileStatus::New,
            status => status,
        };
        let ghost before = statuses@;
        statuses.push((found[i].0.clone(), status));
        assert(statuses@.drop_last() =~= before);
        match status {
            FileStatus::Unchanged => {
                unchanged += 1;
            },
            FileStatus::Modified => {
                modified += 1;
            },
            FileStatus::New => {
                new += 1;
            },
            FileStatus::NoSnapshot => {},
        }
        i += 1;
    }
    CheckReport { statuses, unchanged, modified, new }
}

/// The fingerprints of `snapshots`.
pub open spec fn checksums_of(snapshots: Seq<Snapshot>) -> Seq<Seq<char>> {
    snapshots.map_values(|snapshot: Snapshot| snapshot@.checksum)
}

/// Picks one of `snapshots`, the versions of a path. A single version
/// needs no choice. Among several, `selection` says which is meant,
/// counting from one; without a selection that names one of them, the
/// choice is left open and the fingerprints of all are handed back.
pub fn select_snapshot(snapshots: &[Snapshot], selection: Option<usize>) -> (outcome: Result<
    &Snapshot,
    EngineError,
>)
    ensures
        match outcome {
            Ok(snapshot) => {
                ||| snapshots@.len() == 1 && *snapshot == snapshots@[0]
                ||| snapshots@.len() > 1 && (selection matches Some(n) && 1 <= n
                    <= snapshots@.len() && *snapshot == snapshots@[n - 1])
            },
            Err(EngineError::NotFound) => snapshots@.len() == 0,
            Err(EngineError::AmbiguousSelector(candidates)) => {
                &&& snapshots@.len() > 1
                &&& !(selection matches Some(n) && 1 <= n <= snapshots@.len())
                &&& texts(candidates@) == checksums_of(snapshots@)
            },
            Err(_) => false,
        },
{
    if snapshots.len() == 0 {
        return Err(EngineError::NotFound);
    }
    if snapshots.len() == 1 {
        return Ok(&snapshots[0]);
    }
    match selection {
        Some(n) => {
            if 1 <= n && n <= snapshots.len() {
                return Ok(&snapshots[n - 1]);
            }
        },
        None => {},
    }
    let mut candidates: Vec<String> = Vec::new();
    let mut i: usize = 0;
    while i < snapshots.len()
        invariant
            i <= snapshots.len(),
            candidates@.len() == i,
            forall|k: int| 0 <= k < i ==> (#[trigger] candidates@[k])@ == snapshots@[k]@.checksum,
        decreases snapshots.len() - i,
    {
        candidates.push(snapshots[i].checksum.clone());
        i += 1;
    }
    assert(texts(candidates@) =~= checksums_of(snapshots@));
    Err(EngineError::AmbiguousSelector(candidates))
}

} // verus!
