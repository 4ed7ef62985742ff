//! The values that the web interface exchanges with its clients, and how
//! they are made from the rows of the index.

use vstd::prelude::*;
use vstd::std_specs::convert::FromSpecImpl;
use crate::db::{answers, plain_with_id, records_of, resolved, selected, Database, Filter, Order};
use crate::text::chars_of;
use crate::diff::{diff_contents, diff_text, edits, lines_of, lossy_text};
use crate::snapshot::{destination_view, expand_home, export_target, home_expanded, Snapshot};
use crate::utils::{format_size, size_label, utf8_text};

verus! {

/// A snapshot as the web interface shows it.
#[derive(Debug)]
pub struct SnapshotDto {
    pub id: i64,
    pub path: String,
    pub checksum: String,
    pub date: String,
    pub size: i64,
    pub size_formatted: String,
}

/// An exclusion rule as the web interface shows it.
#[derive(Debug)]
pub struct ExclusionDto {
    pub id: i64,
    pub pattern: String,
    pub exclusion_type: String,
}

/// The totals of the store.
#[derive(Debug)]
pub struct StatsDto {
    pub total_snapshots: i64,
    pub total_storage: i64,
    pub storage_formatted: String,
    pub total_exclusions: i64,
}

/// The answer to a request: the data, or the reason why there is none.
#[derive(Debug)]
pub struct ApiResponse<T> {
    pub ok: bool,
    pub data: Option<T>,
    pub err: Option<String>,
}

/// What a client sends to have a snapshot exported.
#[derive(Debug)]
pub struct ExportInput {
    pub destination: Option<String>,
}

/// What a client sends to have two snapshots compared. Each field is a
/// whole fingerprint or a path.
#[derive(Debug)]
pub struct DiffInput {
    pub first: String,
    pub second: String,
}

/// What a client sends to have a path captured.
#[derive(Debug)]
pub struct CreateSnapshotInput {
    pub path: String,
}

/// What a client sends to have an exclusion rule added.
#[derive(Debug)]
pub struct AddExclusionInput {
    pub pattern: String,
    pub exclusion_type: String,
}

impl<T> From<Result<T, String>> for ApiResponse<T> {
    fn from(res: Result<T, String>) -> (response: ApiResponse<T>) {
        match res {
            Ok(data) => ApiResponse { ok: true, data: Some(data), err: None },
            Err(err) => ApiResponse { ok: false, data: None, err: Some(err) },
        }
    }
}

impl<T> FromSpecImpl<Result<T, String>> for ApiResponse<T> {
    open spec fn obeys_from_spec() -> bool {
        true
    }

    open spec fn from_spec(res: Result<T, String>) -> ApiResponse<T> {
        match res {
            Ok(data) => ApiResponse { ok: true, data: Some(data), err: None },
            Err(err) => ApiResponse { ok: false, data: None, err: Some(err) },
        }
    }
}

impl SnapshotDto {
    /// The line `(id, path, date, size, fingerprint)` of a listing is what
    /// this value shows.
    pub open spec fn shows(&self, line: (int, Seq<char>, Seq<char>, int, Seq<char>)) -> bool {
        &&& self.id == line.0
        &&& self.path@ == line.1
        &&& self.date@ == line.2
        &&& self.size == line.3
        &&& self.checksum@ == line.4
        &&& self.size_formatted@ == size_label(line.3)
    }

    /// The snapshot `snapshot`, stored under `id`, as the web interface
    /// shows it.
    pub fn new(id: i64, snapshot: &Snapshot) -> (dto: SnapshotDto)
        ensures
            dto.shows(
                (
                    id as int,
                    snapshot@.path,
                    snapshot@.date,
                    snapshot@.size,
                    snapshot@.checksum,
                ),
            ),
    {
        SnapshotDto {
            id,
            path: snapshot.path.clone(),
            checksum: snapshot.checksum.clone(),
            date: snapshot.date.clone(),
            size: snapshot.size,
            size_formatted: format_size(snapshot.size),
        }
    }

    /// The lines of a listing with ids as the web interface shows them.
    pub fn list(lines: &[(i64, String, String, i64, String)]) -> (dtos: Vec<SnapshotDto>)
        ensures
            dtos@.len() == lines@.len(),
            forall|i: int|
                0 <= i < dtos@.len() ==> (#[trigger] dtos@[i]).shows(plain_with_id(lines@)[i]),
    {
        let mut dtos: Vec<SnapshotDto> = Vec::new();
        let mut i: usize = 0;
        while i < lines.len()
            invariant
                i <= lines.len(),
                dtos@.len() == i,
                forall|k: int|
                    0 <= k < i ==> (#[trigger] dtos@[k]).shows(plain_with_id(lines@)[k]),
            decreases lines.len() - i,
        {
            let line = &lines[i];
            dtos.push(
                SnapshotDto {
                    id: line.0,
                    path: line.1.clone(),
                    checksum: line.4.clone(),
                    date: line.2.clone(),
                    size: line.3,
                    size_formatted: format_size(line.3),
                },
            );
            i += 1;
        }
        dtos
    }
}

impl ExclusionDto {
    /// The rules of a listing as the web interface shows them, numbered
    /// from one in the order of the listing.
    pub fn list(rules: &[(String, String)]) -> (dtos: Vec<ExclusionDto>)
        requires
            rules@.len() <= i64::MAX,
        ensures
            dtos@.len() == rules@.len(),
            forall|i: int|
                0 <= i < dtos@.len() ==> (#[trigger] dtos@[i]).id == i + 1 && dtos@[i].pattern@
                    == rules@[i].0@ && dtos@[i].exclusion_type@ == rules@[i].1@,
    {
        let mut dtos: Vec<ExclusionDto> = Vec::new();
        let mut i: usize = 0;
        while i < rules.len()
            invariant
                i <= rules.len() <= i64::MAX,
                dtos@.len() == i,
                forall|k: int|
                    0 <= k < i ==> (#[trigger] dtos@[k]).id == k + 1 && dtos@[k].pattern@
                        == rules@[k].0@ && dtos@[k].exclusion_type@ == rules@[k].1@,
            decreases rules.len() - i,
        {
            dtos.push(
                ExclusionDto {
                    id: i as i64 + 1,
                    pattern: rules[i].0.clone(),
                    exclusion_type: rules[i].1.clone(),
                },
            );
            i += 1;
        }
        dtos
    }

    /// A rule that was just added, which has no number yet.
    pub fn added(input: &AddExclusionInput) -> (dto: ExclusionDto)
        ensures
            dto.id == 0,
            dto.pattern@ == input.pattern@,
            dto.exclusion_type@ == input.exclusion_type@,
    {
        ExclusionDto {
            id: 0,
            pattern: input.pattern.clone(),
            exclusion_type: input.exclusion_type.clone(),
        }
    }
}

/// `n` held within the range of a 64-bit signed number.
pub open spec fn clamped(n: int) -> int {
    if n > i64::MAX {
        i64::MAX as int
    } else if n < i64::MIN {
        i64::MIN as int
    } else {
        n
    }
}

/// The sizes of `lines` added up one after the other, each sum being held
/// within the range of a 64-bit signed number.
pub open spec fn total_size(lines: Seq<(int, Seq<char>, Seq<char>, int, Seq<char>)>) -> int
    decreases lines.len(),
{
    if lines.len() == 0 {
        0
    } else {
        clamped(total_size(lines.drop_last()) + lines.last().3)
    }
}

impl StatsDto {
    /// The totals of a store with the snapshots `lines` and `exclusions`
    /// rules.
    pub fn new(lines: &[(i64, String, String, i64, String)], exclusions: usize) -> (stats: StatsDto)
        ensures
            stats.total_snapshots == clamped(lines@.len() as int),
            stats.total_storage == total_size(plain_with_id(lines@)),
            stats.storage_formatted@ == size_label(stats.total_storage as int),
            stats.total_exclusions == clamped(exclusions as int),
    {
        let ghost all = plain_with_id(lines@);
        let mut total: i64 = 0;
        let mut i: usize = 0;
        while i < lines.len()
            invariant
                i <= lines.len(),
                all == plain_with_id(lines@),
                total == total_size(all.take(i as int)),
            decreases lines.len() - i,
        {
            assert(all.take(i + 1).drop_last() == all.take(i as int));
            assert(all.take(i + 1).last() == all[i as int]);
            total = add_clamped(total, lines[i].3);
            i += 1;
        }
        assert(all.take(lines.len() as int) == all);
        StatsDto {
            total_snapshots: count_of(lines.len()),
            total_storage: total,
            storage_formatted: format_size(total),
            total_exclusions: count_of(exclusions),
        }
    }
}

fn add_clamped(a: i64, b: i64) -> (sum: i64)
    ensures
        sum == clamped(a + b),
{
    if b > 0 && a > i64::MAX - b {
        i64::MAX
    } else if b < 0 && a < i64::MIN - b {
        i64::MIN
    } else {
        a + b
    }
}

fn count_of(n: usize) -> (count: i64)
    ensures
        count == clamped(n as int),
{
    if n as u64 > i64::MAX as u64 {
        i64::MAX
    } else {
        n as i64
    }
}

/// The comparison of two contents as text, line by line, under the names
/// `name1` and `name2`.
pub fn generate_diff(name1: &str, name2: &str, content1: &[u8], content2: &[u8]) -> (text: String)
    ensures
        text@ == diff_text(
            name1@,
            name2@,
            edits(lines_of(lossy_text(content1@)), lines_of(lossy_text(content2@))),
        ),
        vstd::utf8::valid_utf8(content1@) ==> lossy_text(content1@) == vstd::utf8::decode_utf8(
            content1@,
        ),
        vstd::utf8::valid_utf8(content2@) ==> lossy_text(content2@) == vstd::utf8::decode_utf8(
            content2@,
        ),
{
    diff_contents(name1, name2, content1, content2)
}

impl CreateSnapshotInput {
    /// The path to capture: the path that was sent, with a leading `~`
    /// replaced by the home directory where one is known.
    pub fn target(&self, home: Option<&str>) -> (path: String)
        ensures
            path@ == home_expanded(self.path@, destination_view(home)),
    {
        expand_home(self.path.as_str(), home)
    }
}

impl ExportInput {
    /// Where the export of `version` goes: to the destination that was
    /// sent, with a leading `~` replaced by the home directory where one
    /// is known, or else to the current directory under the name of the
    /// file.
    pub fn target(&self, version: &Snapshot, current_dir: &str, home: Option<&str>) -> (path:
        String)
        ensures
            path@ == match self.destination {
                Some(dest) => home_expanded(dest@, destination_view(home)),
                None => export_target(version@, None, false, current_dir@),
            },
    {
        match &self.destination {
            Some(dest) => expand_home(dest.as_str(), home),
            None => version.export_destination(None, false, current_dir),
        }
    }
}

/// What the web interface shows of a content of which at most `limit`
/// bytes were read: the text, with a note behind it where the limit was
/// reached, or a note that the content is no text.
pub open spec fn preview_text(bytes: Seq<u8>, limit: int) -> Seq<char> {
    if vstd::utf8::valid_utf8(bytes) {
        if bytes.len() >= limit {
            vstd::utf8::decode_utf8(bytes) + "\n\n[... content truncated ...]"@
        } else {
            vstd::utf8::decode_utf8(bytes)
        }
    } else {
        "[Binary content - cannot display as text]"@
    }
}

/// What is shown of a content, given what it decodes to and whether the
/// limit was reached.
pub fn preview_of(text: Option<String>, cut: bool) -> (shown: String)
    ensures
        shown@ == match text {
            Some(found) => if cut {
                found@ + "\n\n[... content truncated ...]"@
            } else {
                found@
            },
            None => "[Binary content - cannot display as text]"@,
        },
{
    match text {
        Some(found) => {
            if cut {
                found.concat("\n\n[... content truncated ...]")
            } else {
                found
            }
        },
        None => String::from_str("[Binary content - cannot display as text]"),
    }
}

/// What the web interface shows of the content `bytes`, of which at most
/// `limit` bytes were read.
pub fn preview(bytes: Vec<u8>, limit: usize) -> (shown: String)
    ensures
        shown@ == preview_text(bytes@, limit as int),
{
    let cut = bytes.len() >= limit;
    preview_of(utf8_text(bytes), cut)
}

/// The size beyond which contents are not compared: five megabytes.
pub const MAX_DIFF_SIZE: i64 = 5242880;

/// `c` is a hexadecimal digit, small or capital.
pub open spec fn is_hex_char(c: char) -> bool {
    ('0' <= c && c <= '9') || ('a' <= c && c <= 'f') || ('A' <= c && c <= 'F')
}

/// `text` has the form of a whole fingerprint: 64 hexadecimal digits.
pub open spec fn is_whole_fingerprint(text: Seq<char>) -> bool {
    text.len() == 64 && forall|i: int| 0 <= i < text.len() ==> is_hex_char(text[i])
}

/// Whether `text` has the form of a whole fingerprint.
pub fn is_full_fingerprint(text: &str) -> (whole: bool)
    ensures
        whole == is_whole_fingerprint(text@),
{
    let chars = chars_of(text);
    if chars.len() != 64 {
        return false;
    }
    let mut i: usize = 0;
    while i < chars.len()
        invariant
            i <= chars.len(),
            chars@ == text@,
            forall|k: int| 0 <= k < i ==> is_hex_char(chars@[k]),
        decreases chars.len() - i,
    {
        let c = chars[i];
        if !(('0' <= c && c <= '9') || ('a' <= c && c <= 'f') || ('A' <= c && c <= 'F')) {
            return false;
        }
        i += 1;
    }
    true
}

impl DiffInput {
    /// The snapshot that `text` names: the capture with that fingerprint
    /// where the text has the form of a whole fingerprint, else the
    /// earliest capture of the path `text`.
    pub fn subject(text: &str, db: &Database) -> (found: Option<Snapshot>)
        ensures
            if is_whole_fingerprint(text@) {
                let hits = selected(db.rows(), Filter::Fingerprint(text@), Order::NewestFirst);
                match found {
                    Some(snapshot) => answers(Ok(snapshot), resolved(hits)),
                    None => !(resolved(hits) is Found),
                }
            } else {
                let hits = selected(db.rows(), Filter::Path(text@), Order::NewestFirst);
                match found {
                    Some(snapshot) => hits.len() > 0 && snapshot@ == hits.last().record,
                    None => hits.len() == 0,
                }
            },
    {
        if is_full_fingerprint(text) {
            match db.get_snapshot_by_checksum(text) {
                Ok(snapshot) => Some(snapshot),
                Err(_) => None,
            }
        } else {
            let mut versions = db.get_snapshots_for_path(text);
            let ghost hits = selected(db.rows(), Filter::Path(text@), Order::NewestFirst);
            assert(records_of(versions@).len() == hits.len());
            proof {
                if versions@.len() > 0 {
                    assert(records_of(versions@)[versions@.len() - 1] == hits.last().record);
                }
            }
            versions.pop()
        }
    }

    /// Whether two contents of these sizes are small enough to be
    /// compared.
    pub fn comparable(first_size: i64, second_size: i64) -> (small: bool)
        ensures
            small == (first_size <= MAX_DIFF_SIZE && second_size <= MAX_DIFF_SIZE),
    {
        first_size <= MAX_DIFF_SIZE && second_size <= MAX_DIFF_SIZE
    }
}

} // verus!
