//! Snapshot records, and the capture and restore of files.
//!
//! Nothing here touches a file. A capture takes the content that was read
//! and says what is to be written; once that is done, the capture is
//! recorded. A restore says which blob is to be read and where its content
//! goes, and turns the blob into the content.

use vstd::prelude::*;
use crate::checksum::{fingerprint, fingerprint_of, hex, is_hex_digit, lemma_fingerprint_shape,
    sha256};
use crate::codec::{decompress, frame_content, packed, COMPRESSION_LEVEL};
use crate::db::{answers, is_current, latest, resolved, rows_of, selected, Database, Filter, Order,
    Resolution, Row, Scope, Selector};
use crate::error::EngineError;
use crate::exclusion::{any_rule_fits, excluded};
use crate::path::{base_name, file_name, join, joined, SEPARATOR};
use crate::store::{blob_path, is_compressed, is_compressed_blob, is_temp, is_temp_file,
    leftovers, lemma_blob_names, lemma_temp_path, temp_path, temp_path_of, with_file, BlobWrite, ContentStore};
use crate::text::{chars_of, holds_char, holds_text, lex_less, push_all, slice_of, starts_with,
    string_of, texts};

verus! {

/// One capture of one file: where it lay, where its content is kept, the
/// fingerprint of the content, when it was captured and how long it was.
#[derive(Debug)]
pub struct Snapshot {
    pub path: String,
    pub content_path: String,
    pub checksum: String,
    pub date: String,
    pub size: i64,
}

/// A snapshot as a value of texts and numbers.
pub struct Record {
    pub path: Seq<char>,
    pub content_path: Seq<char>,
    pub checksum: Seq<char>,
    pub date: Seq<char>,
    pub size: int,
}

impl View for Snapshot {
    type V = Record;

    open spec fn view(&self) -> Record {
        Record {
            path: self.path@,
            content_path: self.content_path@,
            checksum: self.checksum@,
            date: self.date@,
            size: self.size as int,
        }
    }
}

impl Clone for Snapshot {
    fn clone(&self) -> (copy: Snapshot)
        ensures
            copy@ == self@,
    {
        Snapshot {
            path: self.path.clone(),
            content_path: self.content_path.clone(),
            checksum: self.checksum.clone(),
            date: self.date.clone(),
            size: self.size,
        }
    }
}

/// What is to be done with an entry that a walk through a directory comes
/// upon.
#[derive(Clone, Copy, Debug, PartialEq, Eq, Structural)]
pub enum WalkStep {
    /// The entry is excluded: it is not captured, and if it is a directory
    /// the walk does not go into it.
    Prune,
    /// The entry is a file to be captured.
    Capture,
    /// The entry is no file: the walk goes on, into it if it is a
    /// directory.
    Pass,
}

/// Where the content of a version is read from and where it goes.
#[derive(Debug)]
pub struct RestorePlan {
    /// The blob that holds the content.
    pub blob_path: String,
    /// Where the content goes.
    pub destination: String,
    /// The name under which the content is written before it is renamed to
    /// the destination.
    pub temp_path: String,
    /// Whether the blob is compressed; if not, it is the content itself.
    pub compressed: bool,
}

/// The record of a capture of `content` at `path` on `date`, kept in the
/// directory `dir`.
pub open spec fn record_of(
    path: Seq<char>,
    content: Seq<u8>,
    date: Seq<char>,
    dir: Seq<char>,
) -> Record {
    Record {
        path,
        content_path: blob_path(dir, fingerprint_of(content)),
        checksum: fingerprint_of(content),
        date,
        size: content.len() as int,
    }
}

/// The content that the blob `blob`, kept under `content_path`, holds:
/// what it decompresses to where the path names a compressed blob, else
/// its own bytes.
pub open spec fn blob_holds(content_path: Seq<char>, blob: Seq<u8>) -> Option<Seq<u8>> {
    if is_compressed(content_path) {
        frame_content(blob)
    } else {
        Some(blob)
    }
}

/// `plan` restores to `path` the version of it that `selector` names.
pub open spec fn version_planned(
    plan: RestorePlan,
    rows: Seq<Row>,
    path: Seq<char>,
    selector: Selector,
) -> bool {
    match selector {
        Selector::Latest => latest(rows, path) matches Some(row) && plans(plan, row.record, path),
        Selector::Prefix(prefix) => resolved(
            selected(rows, Filter::Version(path, prefix@), Order::NewestFirst),
        ) matches Resolution::Found(row) && plans(plan, row.record, path),
    }
}

/// `error` says why `selector` names no version of `path`.
pub open spec fn version_refused(
    error: EngineError,
    rows: Seq<Row>,
    path: Seq<char>,
    selector: Selector,
) -> bool {
    match selector {
        Selector::Latest => latest(rows, path) is None && error is NotFound,
        Selector::Prefix(prefix) => answers(
            Err(error),
            resolved(selected(rows, Filter::Version(path, prefix@), Order::NewestFirst)),
        ),
    }
}

/// `outcome` holds the plans for `path` and everything below it: one for
/// each file that the index knows there, for its latest version, the files
/// in the order of their paths; or it says that the index knows none.
pub open spec fn all_planned(
    outcome: Result<Vec<RestorePlan>, EngineError>,
    rows: Seq<Row>,
    path: Seq<char>,
) -> bool {
    match outcome {
        Ok(found) => {
            let paths = distinct_paths(selected(rows, Filter::Within(path), Order::ByPath));
            &&& paths.len() > 0
            &&& found@.len() == paths.len()
            &&& forall|i: int|
                0 <= i < paths.len() ==> (latest(rows, #[trigger] paths[i]) matches Some(row)
                    && plans(found@[i], row.record, paths[i]))
        },
        Err(error) => error is NotFound && selected(
            rows,
            Filter::Within(path),
            Order::ByPath,
        ).len() == 0,
    }
}

/// How many more than `count`, as far as numbers go.
pub open spec fn one_more(count: usize) -> usize {
    if count < usize::MAX {
        (count + 1) as usize
    } else {
        count
    }
}

/// What a capture of a path has done so far. A file that fails does not
/// stop the others: it is noted, and the capture goes on.
#[derive(Debug)]
pub struct CaptureSummary {
    /// How many files were recorded.
    pub recorded: usize,
    /// How many files were unchanged since their latest capture.
    pub unchanged: usize,
    /// The files that could not be captured, each with the reason.
    pub failures: Vec<(String, EngineError)>,
}

impl CaptureSummary {
    /// The summary of a capture that has not begun.
    pub fn new() -> (summary: CaptureSummary)
        ensures
            summary.recorded == 0,
            summary.unchanged == 0,
            summary.failures@.len() == 0,
    {
        CaptureSummary { recorded: 0, unchanged: 0, failures: Vec::new() }
    }

    /// Takes note of what the capture of the file `path` came to.
    pub fn note(&mut self, path: &str, outcome: Result<Option<i64>, EngineError>)
        ensures
            match outcome {
                Ok(Some(_)) => {
                    &&& final(self).recorded == one_more(old(self).recorded)
                    &&& final(self).unchanged == old(self).unchanged
                    &&& final(self).failures@ == old(self).failures@
                },
                Ok(None) => {
                    &&& final(self).recorded == old(self).recorded
                    &&& final(self).unchanged == one_more(old(self).unchanged)
                    &&& final(self).failures@ == old(self).failures@
                },
                Err(error) => {
                    &&& final(self).recorded == old(self).recorded
                    &&& final(self).unchanged == old(self).unchanged
                    &&& final(self).failures@.len() == old(self).failures@.len() + 1
                    &&& final(self).failures@.drop_last() == old(self).failures@
                    &&& final(self).failures@.last().0@ == path@
                    &&& final(self).failures@.last().1 == error
                },
            },
    {
        match outcome {
            Ok(Some(_)) => {
                if self.recorded < usize::MAX {
                    self.recorded = self.recorded + 1;
                }
            },
            Ok(None) => {
                if self.unchanged < usize::MAX {
                    self.unchanged = self.unchanged + 1;
                }
            },
            Err(error) => {
                self.failures.push((String::from_str(path), error));
                assert(self.failures@.drop_last() =~= old(self).failures@);
            },
        }
    }

    /// Whether every file was captured.
    pub fn is_clean(&self) -> (clean: bool)
        ensures
            clean == (self.failures@.len() == 0),
    {
        self.failures.len() == 0
    }
}

/// The plan to restore `record` to `destination`.
pub open spec fn plans(plan: RestorePlan, record: Record, destination: Seq<char>) -> bool {
    &&& plan.blob_path@ == record.content_path
    &&& plan.destination@ == destination
    &&& plan.temp_path@ == temp_path(destination)
    &&& plan.temp_path@ != plan.destination@
    &&& plan.compressed == is_compressed(record.content_path)
}

/// The time of the local clock as RFC 3339 text, from
/// `chrono::Local::now` and `to_rfc3339`. Nothing is claimed of it.
#[verifier::external_body]
fn local_time() -> (date: String) {
    chrono::Local::now().to_rfc3339()
}

/// The home directory as `dirs::home_dir` finds it in the environment, as
/// text. Nothing is claimed of it.
#[verifier::external_body]
fn home_dir() -> (home: Option<String>) {
    match dirs::home_dir() {
        Some(path) => Some(path.to_string_lossy().into_owned()),
        None => None,
    }
}

/// A fingerprint is not empty and holds no separator.
proof fn lemma_fingerprint_is_a_name(content: Seq<u8>)
    requires
        sha256(content).len() == 32,
    ensures
        fingerprint_of(content).len() == 64,
        forall|j: int| 0 <= j < 64 ==> fingerprint_of(content)[j] != SEPARATOR,
{
    lemma_fingerprint_shape(sha256(content));
    assert forall|j: int| 0 <= j < 64 implies fingerprint_of(content)[j] != SEPARATOR by {
        assert(is_hex_digit(hex(sha256(content))[j]));
    }
}

impl Snapshot {
    /// The storage directory below the home directory `home`.
    pub fn storage_dir_in(home: &str) -> (dir: String)
        ensures
            dir@ == joined(home@, ".freeze/storage"@),
    {
        let dir = join(chars_of(home).as_slice(), chars_of(".freeze/storage").as_slice());
        string_of(dir.as_slice())
    }

    /// The storage directory, or the error that says that none can be
    /// determined.
    pub fn storage_dir_for(home: Option<String>) -> (dir: Result<String, EngineError>)
        ensures
            match home {
                Some(text) => dir matches Ok(found) && found@ == joined(
                    text@,
                    ".freeze/storage"@,
                ),
                None => dir matches Err(EngineError::ConfigError),
            },
    {
        match home {
            Some(text) => Ok(Snapshot::storage_dir_in(text.as_str())),
            None => Err(EngineError::ConfigError),
        }
    }

    /// The storage directory below the home directory of the environment.
    pub fn get_storage_dir() -> (dir: Result<String, EngineError>)
        ensures
            match dir {
                Ok(found) => exists|home: Seq<char>| found@ == joined(home, ".freeze/storage"@),
                Err(error) => error is ConfigError,
            },
    {
        Snapshot::storage_dir_for(home_dir())
    }

    /// Captures `content`, read at `path`, as of `date`: makes the record,
    /// and says what has to be written for the store to hold the content.
    /// Where the store holds a blob for the fingerprint already, nothing
    /// is written: the capture rests on the blob that is there.
    ///
    /// Fails only where the compressor does.
    pub fn stamped(path: &str, content: &[u8], date: &str, store: &ContentStore) -> (outcome:
        Result<(Snapshot, Option<BlobWrite>), EngineError>)
        requires
            content@.len() <= i64::MAX,
        ensures
            store.has(fingerprint_of(content@)) ==> outcome is Ok,
            !store.has(fingerprint_of(content@)) ==> (outcome is Ok <==> packed(
                content@,
                COMPRESSION_LEVEL as int,
            ) is Some),
            match outcome {
                Ok((snapshot, write)) => {
                    &&& snapshot@ == record_of(path@, content@, date@, store.dir())
                    &&& match write {
                        Some(blob) => {
                            &&& !store.has(fingerprint_of(content@))
                            &&& blob.target_path@ == snapshot@.content_path
                            &&& blob.temp_path@ == temp_path(blob.target_path@)
                            &&& is_temp(blob.temp_path@)
                            &&& !is_temp(blob.target_path@)
                            &&& packed(content@, COMPRESSION_LEVEL as int) == Some(blob.frame@)
                            &&& blob_holds(snapshot@.content_path, blob.frame@) == Some(content@)
                        },
                        None => store.has(fingerprint_of(content@)),
                    }
                },
                Err(error) => !store.has(fingerprint_of(content@)) && error is Io,
            },
    {
        let checksum = fingerprint(content);
        proof {
            lemma_fingerprint_is_a_name(content@);
            lemma_blob_names(store.dir(), checksum@);
        }
        let write = match store.put(checksum.as_str(), content) {
            Ok(write) => write,
            Err(error) => {
                return Err(error);
            },
        };
        let snapshot = Snapshot {
            path: String::from_str(path),
            content_path: store.blob_path(checksum.as_str()),
            checksum,
            date: String::from_str(date),
            size: content.len() as i64,
        };
        Ok((snapshot, write))
    }

    /// Captures `content`, read at `path`, as of now by the local clock.
    pub fn new(path: &str, content: &[u8], store: &ContentStore) -> (outcome: Result<
        (Snapshot, Option<BlobWrite>),
        EngineError,
    >)
        requires
            content@.len() <= i64::MAX,
        ensures
            store.has(fingerprint_of(content@)) ==> outcome is Ok,
            !store.has(fingerprint_of(content@)) ==> (outcome is Ok <==> packed(
                content@,
                COMPRESSION_LEVEL as int,
            ) is Some),
            match outcome {
                Ok((snapshot, write)) => {
                    &&& snapshot@ == record_of(path@, content@, snapshot@.date, store.dir())
                    &&& match write {
                        Some(blob) => {
                            &&& !store.has(fingerprint_of(content@))
                            &&& blob.target_path@ == snapshot@.content_path
                            &&& blob.temp_path@ == temp_path(blob.target_path@)
                            &&& is_temp(blob.temp_path@)
                            &&& !is_temp(blob.target_path@)
                            &&& packed(content@, COMPRESSION_LEVEL as int) == Some(blob.frame@)
                            &&& blob_holds(snapshot@.content_path, blob.frame@) == Some(content@)
                        },
                        None => store.has(fingerprint_of(content@)),
                    }
                },
                Err(error) => !store.has(fingerprint_of(content@)) && error is Io,
            },
    {
        let date = local_time();
        Snapshot::stamped(path, content, date.as_str(), store)
    }

    /// Records a capture whose blob stands in the store's directory: the
    /// store takes note of the blob, and the index of the capture unless
    /// it is what the index already holds as the latest state of the
    /// path. Returns the id of the new row, or `None` where nothing was
    /// new.
    pub fn save_file(&self, db: &mut Database, store: &mut ContentStore) -> (outcome: Result<
        Option<i64>,
        EngineError,
    >)
        requires
            old(db).wf(),
            old(store).wf(),
        ensures
            final(db).wf(),
            final(store).wf(),
            final(store).dir() == old(store).dir(),
            final(store).files() == if is_temp(self@.content_path) {
                old(store).files()
            } else {
                with_file(old(store).files(), self@.content_path)
            },
            final(db).rules() == old(db).rules(),
            is_current(old(db).rows(), self@) ==> outcome matches Ok(None),
            !is_current(old(db).rows(), self@) && old(db).next_id() < i64::MAX
                ==> outcome matches Ok(Some(_)),
            !is_current(old(db).rows(), self@) && old(db).next_id() == i64::MAX
                ==> outcome matches Err(EngineError::Io(_)),
            match outcome {
                Ok(Some(id)) => {
                    &&& id == old(db).next_id()
                    &&& final(db).next_id() == id + 1
                    &&& final(db).rows() == old(db).rows().push(
                        Row { id: id as int, record: self@ },
                    )
                },
                _ => final(db).rows() == old(db).rows() && final(db).next_id() == old(
                    db,
                ).next_id(),
            },
    {
        store.commit(self.content_path.as_str());
        db.save_snapshot(self)
    }

    /// What a walk does with the entry `path`: an entry that a rule
    /// excludes is pruned, a file is captured, anything else passed.
    pub fn save_recursive(path: &str, is_file: bool, rules: &Vec<(String, String)>) -> (step:
        WalkStep)
        ensures
            step == if excluded(path@, rules@) {
                WalkStep::Prune
            } else if is_file {
                WalkStep::Capture
            } else {
                WalkStep::Pass
            },
    {
        if any_rule_fits(path, rules) {
            WalkStep::Prune
        } else if is_file {
            WalkStep::Capture
        } else {
            WalkStep::Pass
        }
    }

    /// Whether a capture passes over `path`: whether one of `rules` fits
    /// it. Without rules nothing is passed over.
    pub fn is_excluded(path: &str, rules: &Vec<(String, String)>) -> (hit: bool)
        ensures
            hit == excluded(path@, rules@),
    {
        any_rule_fits(path, rules)
    }

    /// The temporary files among `found`, the files of the storage
    /// directory: what a run that was cut short has left behind, to be
    /// removed when the next one starts.
    pub fn cleanup_temp_files(found: &Vec<String>) -> (swept: Vec<String>)
        ensures
            texts(swept@) == leftovers(texts(found@)),
    {
        let mut swept: Vec<String> = Vec::new();
        let mut i: usize = 0;
        let ghost all = texts(found@);
        assert(texts(swept@) =~= Seq::<Seq<char>>::empty());
        while i < found.len()
            invariant
                i <= found.len(),
                all == texts(found@),
                texts(swept@) == leftovers(all.take(i as int)),
            decreases found.len() - i,
        {
            assert(all.take(i + 1).drop_last() == all.take(i as int));
            assert(all.take(i + 1).last() == found@[i as int]@);
            if is_temp_file(found[i].as_str()) {
                let ghost before = texts(swept@);
                swept.push(found[i].clone());
                assert(texts(swept@) =~= before.push(found@[i as int]@));
            }
            i += 1;
        }
        assert(all.take(found.len() as int) == all);
        swept
    }

    /// The plan to restore this version to `destination`.
    pub fn restore_snapshot(&self, destination: &str) -> (plan: RestorePlan)
        ensures
            plans(plan, self@, destination@),
    {
        proof {
            lemma_temp_path(destination@);
        }
        RestorePlan {
            blob_path: self.content_path.clone(),
            destination: String::from_str(destination),
            temp_path: temp_path_of(destination),
            compressed: is_compressed_blob(self.content_path.as_str()),
        }
    }

    /// The plan to restore to `path` the version of it that `selector`
    /// names.
    pub fn restore_single(path: &str, selector: &Selector, db: &Database) -> (outcome: Result<
        RestorePlan,
        EngineError,
    >)
        ensures
            match outcome {
                Ok(plan) => version_planned(plan, db.rows(), path@, *selector),
                Err(error) => version_refused(error, db.rows(), path@, *selector),
            },
    {
        match db.resolve_version(path, selector) {
            Ok(snapshot) => Ok(snapshot.restore_snapshot(path)),
            Err(error) => Err(error),
        }
    }

    /// The plans to restore `path`: where the index knows captures of the
    /// path itself, the one plan for the version that `selector` names;
    /// else the plans for the latest versions of the files below it.
    pub fn restore_target(path: &str, selector: &Selector, db: &Database) -> (outcome: Result<
        Vec<RestorePlan>,
        EngineError,
    >)
        ensures
            latest(db.rows(), path@) is Some ==> match outcome {
                Ok(found) => found@.len() == 1 && version_planned(
                    found@[0],
                    db.rows(),
                    path@,
                    *selector,
                ),
                Err(error) => version_refused(error, db.rows(), path@, *selector),
            },
            latest(db.rows(), path@) is None ==> all_planned(outcome, db.rows(), path@),
    {
        match db.resolve_version(path, &Selector::Latest) {
            Ok(_) => match Snapshot::restore_single(path, selector, db) {
                Ok(plan) => {
                    let mut found: Vec<RestorePlan> = Vec::new();
                    found.push(plan);
                    Ok(found)
                },
                Err(error) => Err(error),
            },
            Err(_) => Snapshot::restore(path, db),
        }
    }

    /// The content that the blob `blob` of this version holds. A blob that
    /// does not decompress is corrupt.
    pub fn restored_content(&self, blob: &[u8]) -> (content: Result<Vec<u8>, EngineError>)
        ensures
            match content {
                Ok(bytes) => blob_holds(self@.content_path, blob@) == Some(bytes@),
                Err(error) => error is CorruptBlob && blob_holds(self@.content_path, blob@) is None,
            },
    {
        if is_compressed_blob(self.content_path.as_str()) {
            decompress(blob)
        } else {
            Ok(vstd::slice::slice_to_vec(blob))
        }
    }
}

/// The paths of `rows`, each once, in the order in which they first occur.
pub open spec fn distinct_paths(rows: Seq<Row>) -> Seq<Seq<char>>
    decreases rows.len(),
{
    if rows.len() == 0 {
        Seq::empty()
    } else {
        let before = distinct_paths(rows.drop_last());
        if before.contains(rows.last().record.path) {
            before
        } else {
            before.push(rows.last().record.path)
        }
    }
}

/// Each of the distinct paths of some rows is the path of one of them.
pub proof fn lemma_distinct_paths(rows: Seq<Row>)
    ensures
        forall|k: int|
            0 <= k < distinct_paths(rows).len() ==> exists|i: int|
                0 <= i < rows.len() && (#[trigger] rows[i]).record.path == (
                #[trigger] distinct_paths(rows)[k]),
        rows.len() > 0 ==> distinct_paths(rows).len() > 0,
    decreases rows.len(),
{
    if rows.len() > 0 {
        let front = rows.drop_last();
        lemma_distinct_paths(front);
        let before = distinct_paths(front);
        assert forall|k: int| 0 <= k < distinct_paths(rows).len() implies exists|i: int|
            0 <= i < rows.len() && (#[trigger] rows[i]).record.path == (
            #[trigger] distinct_paths(rows)[k]) by {
            if k < before.len() {
                let i = choose|i: int|
                    0 <= i < front.len() && (#[trigger] front[i]).record.path == before[k];
                assert(rows[i].record.path == before[k]);
            } else {
                assert(rows[rows.len() - 1].record.path == distinct_paths(rows)[k]);
            }
        }
    }
}

impl Snapshot {
    /// The plans to restore `path` and everything below it: for each file
    /// that the index knows there, the plan for its latest version, the
    /// files in the order of their paths. Where the index knows no file
    /// there, nothing is found.
    pub fn restore(path: &str, db: &Database) -> (outcome: Result<Vec<RestorePlan>, EngineError>)
        ensures
            all_planned(outcome, db.rows(), path@),
    {
        let entries = db.select(&Scope::Within(String::from_str(path)), Order::ByPath);
        if entries.len() == 0 {
            return Err(EngineError::NotFound);
        }
        let ghost rows = rows_of(entries@);
        let mut paths: Vec<String> = Vec::new();
        let mut found: Vec<RestorePlan> = Vec::new();
        let mut i: usize = 0;
        assert(texts(paths@) =~= Seq::<Seq<char>>::empty());
        while i < entries.len()
            invariant
                i <= entries.len(),
                rows == rows_of(entries@),
                rows == selected(db.rows(), Filter::Within(path@), Order::ByPath),
                texts(paths@) == distinct_paths(rows.take(i as int)),
                found@.len() == paths@.len(),
                forall|k: int|
                    0 <= k < paths@.len() ==> (latest(db.rows(), #[trigger] texts(paths@)[k]) matches Some(
                        row,
                    ) && plans(found@[k], row.record, texts(paths@)[k])),
            decreases entries.len() - i,
        {
            assert(rows.take(i + 1).drop_last() == rows.take(i as int));
            assert(rows.take(i + 1).last() == entries@[i as int]@);
            let file = &entries[i].snapshot.path;
            if !holds_text(&paths, file.as_str()) {
                proof {
                    let row = entries@[i as int]@;
                    let filter = Filter::Path(file@);
                    crate::db::lemma_selected_members(
                        db.rows(),
                        Filter::Within(path@),
                        Order::ByPath,
                    );
                    assert(rows[i as int] == row);
                    assert(rows.contains(row));
                    assert(db.rows().contains(row));
                    crate::db::lemma_selected_members(db.rows(), filter, Order::NewestFirst);
                    let hits = selected(db.rows(), filter, Order::NewestFirst);
                    assert(hits.contains(row));
                    assert(hits.len() > 0);
                }
                match db.resolve_version(file.as_str(), &Selector::Latest) {
                    Ok(snapshot) => {
                        let ghost before = texts(paths@);
                        let ghost plans_before = found@;
                        paths.push(file.clone());
                        found.push(snapshot.restore_snapshot(file.as_str()));
                        assert(texts(paths@) =~= before.push(file@));
                        assert forall|k: int| 0 <= k < paths@.len() implies (latest(
                            db.rows(),
                            #[trigger] texts(paths@)[k],
                        ) matches Some(row) && plans(found@[k], row.record, texts(paths@)[k])) by {
                            if k < before.len() {
                                assert(texts(paths@)[k] == before[k]);
                                assert(found@[k] == plans_before[k]);
                            }
                        }
                    },
                    Err(_) => {
                        assert(false);
                    },
                }
            }
            i += 1;
        }
        assert(rows.take(entries.len() as int) == rows);
        proof {
            lemma_distinct_paths(rows);
        }
        Ok(found)
    }

    /// Where an export of this version goes. Without a destination it goes
    /// to the current directory under the name of the file, or under the
    /// fingerprint where the path has no name. A destination that is a
    /// directory takes it under that name; a destination with a separator
    /// in it is the path itself; any other is a name in the current
    /// directory.
    pub fn export_destination(
        &self,
        destination: Option<&str>,
        destination_is_dir: bool,
        current_dir: &str,
    ) -> (target: String)
        ensures
            target@ == export_target(
                self@,
                destination_view(destination),
                destination_is_dir,
                current_dir@,
            ),
    {
        let path = chars_of(self.path.as_str());
        let name = match file_name(path.as_slice()) {
            Some(name) => name,
            None => chars_of(self.checksum.as_str()),
        };
        let cwd = chars_of(current_dir);
        match destination {
            Some(dest) => {
                let dest_chars = chars_of(dest);
                if destination_is_dir {
                    string_of(join(dest_chars.as_slice(), name.as_slice()).as_slice())
                } else if holds_char(dest_chars.as_slice(), '/') || holds_char(
                    dest_chars.as_slice(),
                    '\\',
                ) {
                    string_of(dest_chars.as_slice())
                } else {
                    string_of(join(cwd.as_slice(), dest_chars.as_slice()).as_slice())
                }
            },
            None => string_of(join(cwd.as_slice(), name.as_slice()).as_slice()),
        }
    }
}

/// The text of a destination, if there is one.
pub open spec fn destination_view(destination: Option<&str>) -> Option<Seq<char>> {
    match destination {
        Some(text) => Some(text@),
        None => None,
    }
}

/// The name under which a version is exported: the final component of its
/// path, or its fingerprint where the path has none.
pub open spec fn export_name(record: Record) -> Seq<char> {
    match base_name(record.path) {
        Some(name) => name,
        None => record.checksum,
    }
}

/// Where an export of `record` goes.
pub open spec fn export_target(
    record: Record,
    destination: Option<Seq<char>>,
    destination_is_dir: bool,
    current_dir: Seq<char>,
) -> Seq<char> {
    match destination {
        Some(dest) => if destination_is_dir {
            joined(dest, export_name(record))
        } else if dest.contains('/') || dest.contains('\\') {
            dest
        } else {
            joined(current_dir, dest)
        },
        None => joined(current_dir, export_name(record)),
    }
}

/// `path` with a leading `~` replaced by the home directory `home`, where
/// the path begins with `~/` and a home directory is known.
pub open spec fn home_expanded(path: Seq<char>, home: Option<Seq<char>>) -> Seq<char> {
    match home {
        Some(dir) => if "~/"@.is_prefix_of(path) {
            dir + path.subrange(1, path.len() as int)
        } else {
            path
        },
        None => path,
    }
}

/// `path` with a leading `~` replaced by the home directory.
pub fn expand_home(path: &str, home: Option<&str>) -> (expanded: String)
    ensures
        expanded@ == home_expanded(path@, destination_view(home)),
{
    let chars = chars_of(path);
    match home {
        Some(dir) => {
            if starts_with(chars.as_slice(), chars_of("~/").as_slice()) {
                proof {
                    reveal_strlit("~/");
                }
                let mut out = chars_of(dir);
                let rest = slice_of(chars.as_slice(), 1, chars.len());
                push_all(&mut out, rest.as_slice());
                string_of(out.as_slice())
            } else {
                string_of(chars.as_slice())
            }
        },
        None => string_of(chars.as_slice()),
    }
}

impl RestorePlan {
    /// The content that goes to the destination, given the blob that was
    /// read at `blob_path`: what the blob decompresses to where its path
    /// names a compressed blob, else the blob itself.
    pub fn content(&self, blob: &[u8]) -> (content: Result<Vec<u8>, EngineError>)
        ensures
            match content {
                Ok(bytes) => blob_holds(self.blob_path@, blob@) == Some(bytes@),
                Err(error) => error is CorruptBlob && blob_holds(self.blob_path@, blob@) is None,
            },
    {
        if is_compressed_blob(self.blob_path.as_str()) {
            decompress(blob)
        } else {
            Ok(vstd::slice::slice_to_vec(blob))
        }
    }
}

/// The first `limit` bytes of `content`, or all of it.
pub open spec fn first_bytes(content: Seq<u8>, limit: int) -> Seq<u8> {
    if content.len() > limit {
        content.take(limit)
    } else {
        content
    }
}

impl Snapshot {
    /// The beginning of the content that the blob `blob` of this version
    /// holds: its first `limit` bytes, or all of it where it is shorter.
    pub fn peek_content(&self, blob: &[u8], limit: usize) -> (content: Result<
        Vec<u8>,
        EngineError,
    >)
        ensures
            match content {
                Ok(bytes) => blob_holds(self@.content_path, blob@) matches Some(all) && bytes@
                    == first_bytes(all, limit as int),
                Err(error) => error is CorruptBlob && blob_holds(self@.content_path, blob@) is None,
            },
    {
        match self.restored_content(blob) {
            Ok(mut bytes) => {
                if bytes.len() > limit {
                    bytes.truncate(limit);
                }
                Ok(bytes)
            },
            Err(error) => Err(error),
        }
    }
}

/// Equal contents share one blob. Once the store has taken note of the
/// blob of a capture, it holds a blob for every content with the same
/// bytes, at whatever path and time it is captured: the second capture has
/// the fingerprint and the content path of the first, finds its blob in
/// the store, so that nothing is written for it, and recording it leaves
/// the files of the store as they are, the blob among them once.
pub proof fn lemma_equal_contents_share_one_blob(
    before: ContentStore,
    after: ContentStore,
    content: Seq<u8>,
    first_path: Seq<char>,
    first_date: Seq<char>,
    second_path: Seq<char>,
    second_date: Seq<char>,
)
    requires
        before.wf(),
        after.dir() == before.dir(),
        after.files() == with_file(
            before.files(),
            record_of(first_path, content, first_date, before.dir()).content_path,
        ),
    ensures
        after.has(fingerprint_of(content)),
        after.files().no_duplicates(),
        record_of(second_path, content, second_date, after.dir()).checksum == record_of(
            first_path,
            content,
            first_date,
            before.dir(),
        ).checksum,
        record_of(second_path, content, second_date, after.dir()).content_path == record_of(
            first_path,
            content,
            first_date,
            before.dir(),
        ).content_path,
        with_file(
            after.files(),
            record_of(second_path, content, second_date, after.dir()).content_path,
        ) == after.files(),
{
    crate::store::lemma_one_blob_for_one_content(
        before.files(),
        blob_path(before.dir(), fingerprint_of(content)),
    );
}

/// A capture and a restore give back what was captured. Take a content
/// that is captured at a path, at a time that is not before the other
/// captures of the path, and recorded under a new id; and a blob that
/// holds the content, as the blob does that the capture has written. Then
/// the latest version of the path is this capture, and what a restore gets
/// out of the blob is the content, byte for byte, whatever the bytes are.
pub proof fn lemma_capture_then_restore(
    rows: Seq<Row>,
    id: int,
    path: Seq<char>,
    content: Seq<u8>,
    date: Seq<char>,
    dir: Seq<char>,
    blob: Seq<u8>,
    restored: Seq<u8>,
)
    requires
        forall|i: int| 0 <= i < rows.len() ==> (#[trigger] rows[i]).id < id,
        forall|i: int|
            0 <= i < rows.len() && (#[trigger] rows[i]).record.path == path ==> !lex_less(
                date,
                rows[i].record.date,
            ),
        blob_holds(blob_path(dir, fingerprint_of(content)), blob) == Some(content),
        blob_holds(record_of(path, content, date, dir).content_path, blob) == Some(restored),
    ensures
        latest(rows.push(Row { id, record: record_of(path, content, date, dir) }), path) == Some(
            Row { id, record: record_of(path, content, date, dir) },
        ),
        restored == content,
{
    let record = record_of(path, content, date, dir);
    crate::db::lemma_recapture_finds_nothing_new(rows, id, record, record);
}

} // verus!
