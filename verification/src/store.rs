//! The content store: one compressed blob for each fingerprint, in one
//! directory of the disk.
//!
//! The store itself touches no file. It knows which files the directory
//! holds, says what has to be written or removed, and is told when that
//! was done. A blob is written under a temporary name and renamed into
//! place, so no file under a blob's name ever holds part of a blob; what
//! is left under a temporary name by a run that was cut short is removed
//! when the store is next opened.

use vstd::prelude::*;
use crate::codec::{compress, frame_content, packed, COMPRESSION_LEVEL};
use crate::db::lemma_push_contains;
use crate::error::EngineError;
use crate::path::{extension, extension_of, join, joined, lemma_extension_of_built, lemma_trimmed,
    trim, trimmed, SEPARATOR};
use crate::text::{chars_of, holds_text, push_str, same_chars, string_of, texts};

verus! {

/// The path of the blob for `fingerprint` in the directory `dir`.
pub open spec fn blob_path(dir: Seq<char>, fingerprint: Seq<char>) -> Seq<char> {
    joined(dir, fingerprint + ".zstd"@)
}

/// The temporary name under which a file is written before it is renamed
/// to `target`: the name of the target with `.tmp` behind it. It is never
/// the target's own name.
pub open spec fn temp_path(target: Seq<char>) -> Seq<char> {
    trimmed(target) + ".tmp"@
}

/// `path` is a temporary name.
pub open spec fn is_temp(path: Seq<char>) -> bool {
    extension(path) == Some("tmp"@)
}

/// `path` names a compressed blob. Other files in the store are contents
/// kept as they were, from before blobs were compressed.
pub open spec fn is_compressed(path: Seq<char>) -> bool {
    extension(path) == Some("zstd"@)
}

/// The path of the blob for `fingerprint` in the directory `dir`.
pub fn blob_path_of(dir: &str, fingerprint: &str) -> (path: String)
    ensures
        path@ == blob_path(dir@, fingerprint@),
{
    let mut name = chars_of(fingerprint);
    push_str(&mut name, ".zstd");
    let path = join(chars_of(dir).as_slice(), name.as_slice());
    string_of(path.as_slice())
}

/// The temporary name for `target`.
pub fn temp_path_of(target: &str) -> (path: String)
    ensures
        path@ == temp_path(target@),
{
    let mut path = trim(chars_of(target).as_slice());
    push_str(&mut path, ".tmp");
    string_of(path.as_slice())
}

/// Whether `path` is a temporary name.
pub fn is_temp_file(path: &str) -> (temp: bool)
    ensures
        temp == is_temp(path@),
{
    match extension_of(chars_of(path).as_slice()) {
        Some(ext) => same_chars(ext.as_slice(), chars_of("tmp").as_slice()),
        None => false,
    }
}

/// Whether `path` names a compressed blob.
pub fn is_compressed_blob(path: &str) -> (compressed: bool)
    ensures
        compressed == is_compressed(path@),
{
    match extension_of(chars_of(path).as_slice()) {
        Some(ext) => same_chars(ext.as_slice(), chars_of("zstd").as_slice()),
        None => false,
    }
}

/// The files of `found` that are temporary, in their order: what a run
/// that was cut short has left behind.
pub open spec fn leftovers(found: Seq<Seq<char>>) -> Seq<Seq<char>>
    decreases found.len(),
{
    if found.len() == 0 {
        Seq::empty()
    } else if is_temp(found.last()) {
        leftovers(found.drop_last()).push(found.last())
    } else {
        leftovers(found.drop_last())
    }
}

/// The files of `found` that are not temporary, each once, in the order in
/// which they first occur.
pub open spec fn settled(found: Seq<Seq<char>>) -> Seq<Seq<char>>
    decreases found.len(),
{
    if found.len() == 0 {
        Seq::empty()
    } else if is_temp(found.last()) || settled(found.drop_last()).contains(found.last()) {
        settled(found.drop_last())
    } else {
        settled(found.drop_last()).push(found.last())
    }
}

/// The files of `files` that are among `live`, in their order.
pub open spec fn kept(files: Seq<Seq<char>>, live: Seq<Seq<char>>) -> Seq<Seq<char>>
    decreases files.len(),
{
    if files.len() == 0 {
        Seq::empty()
    } else if live.contains(files.last()) {
        kept(files.drop_last(), live).push(files.last())
    } else {
        kept(files.drop_last(), live)
    }
}

/// The files of `files` that are not among `live`, in their order: the
/// blobs that no record refers to.
pub open spec fn orphans(files: Seq<Seq<char>>, live: Seq<Seq<char>>) -> Seq<Seq<char>>
    decreases files.len(),
{
    if files.len() == 0 {
        Seq::empty()
    } else if live.contains(files.last()) {
        orphans(files.drop_last(), live)
    } else {
        orphans(files.drop_last(), live).push(files.last())
    }
}

/// `files` with `path` among them: added at the end where it was missing.
pub open spec fn with_file(files: Seq<Seq<char>>, path: Seq<char>) -> Seq<Seq<char>> {
    if files.contains(path) {
        files
    } else {
        files.push(path)
    }
}

/// A blob to be written: `frame` goes to `temp_path`, which is then
/// renamed to `target_path`.
#[derive(Debug)]
pub struct BlobWrite {
    pub temp_path: String,
    pub target_path: String,
    pub frame: Vec<u8>,
}

/// The content store.
pub struct ContentStore {
    dir: String,
    files: Vec<String>,
}

impl ContentStore {
    /// The directory of the store.
    pub closed spec fn dir(&self) -> Seq<char> {
        self.dir@
    }

    /// The files that the directory holds, as far as the store was told.
    pub closed spec fn files(&self) -> Seq<Seq<char>> {
        texts(self.files@)
    }

    /// No file is counted twice, and none is temporary.
    pub open spec fn wf(&self) -> bool {
        &&& self.files().no_duplicates()
        &&& forall|i: int| 0 <= i < self.files().len() ==> !is_temp(#[trigger] self.files()[i])
    }

    /// The store holds a blob for `fingerprint`.
    pub open spec fn has(&self, fingerprint: Seq<char>) -> bool {
        self.files().contains(blob_path(self.dir(), fingerprint))
    }

    /// Opens the store on the directory `dir`, in which the files `found`
    /// were found. The temporary files among them are handed back: they
    /// are to be removed. The others are the store's files.
    pub fn open(dir: &str, found: &Vec<String>) -> (opened: (ContentStore, Vec<String>))
        ensures
            opened.0.wf(),
            opened.0.dir() == dir@,
            opened.0.files() == settled(texts(found@)),
            texts(opened.1@) == leftovers(texts(found@)),
    {
        let mut files: Vec<String> = Vec::new();
        let mut swept: Vec<String> = Vec::new();
        let mut i: usize = 0;
        let ghost all = texts(found@);
        assert(texts(files@) =~= Seq::<Seq<char>>::empty());
        assert(texts(swept@) =~= Seq::<Seq<char>>::empty());
        while i < found.len()
            invariant
                i <= found.len(),
                all == texts(found@),
                texts(files@) == settled(all.take(i as int)),
                texts(swept@) == leftovers(all.take(i as int)),
                texts(files@).no_duplicates(),
                forall|k: int| 0 <= k < files@.len() ==> !is_temp(#[trigger] texts(files@)[k]),
            decreases found.len() - i,
        {
            assert(all.take(i + 1).drop_last() == all.take(i as int));
            assert(all.take(i + 1).last() == found@[i as int]@);
            if is_temp_file(found[i].as_str()) {
                let ghost before = texts(swept@);
                swept.push(found[i].clone());
                assert(texts(swept@) =~= before.push(found@[i as int]@));
            } else if !holds_text(&files, found[i].as_str()) {
                let ghost before = texts(files@);
                files.push(found[i].clone());
                assert(texts(files@) =~= before.push(found@[i as int]@));
            }
            i += 1;
        }
        assert(all.take(found.len() as int) == all);
        (ContentStore { dir: String::from_str(dir), files }, swept)
    }

    /// The path of the blob for `fingerprint`.
    pub fn blob_path(&self, fingerprint: &str) -> (path: String)
        ensures
            path@ == blob_path(self.dir(), fingerprint@),
    {
        blob_path_of(self.dir.as_str(), fingerprint)
    }

    /// Whether the store holds a blob for `fingerprint`.
    pub fn holds(&self, fingerprint: &str) -> (held: bool)
        ensures
            held == self.has(fingerprint@),
    {
        let path = self.blob_path(fingerprint);
        holds_text(&self.files, path.as_str())
    }

    /// What has to be written so that the store holds `content` under
    /// `fingerprint`: nothing where it holds a blob for the fingerprint
    /// already, else the frame that `content` compresses to, under a
    /// temporary name beside the blob's own.
    ///
    /// Fails exactly where a blob is wanted and the compressor has no frame
    /// for the content.
    pub fn put(&self, fingerprint: &str, content: &[u8]) -> (outcome: Result<
        Option<BlobWrite>,
        EngineError,
    >)
        ensures
            self.has(fingerprint@) ==> outcome matches Ok(None),
            !self.has(fingerprint@) ==> (outcome is Ok <==> packed(
                content@,
                COMPRESSION_LEVEL as int,
            ) is Some),
            match outcome {
                Ok(Some(write)) => {
                    &&& !self.has(fingerprint@)
                    &&& write.target_path@ == blob_path(self.dir(), fingerprint@)
                    &&& write.temp_path@ == temp_path(write.target_path@)
                    &&& packed(content@, COMPRESSION_LEVEL as int) == Some(write.frame@)
                    &&& frame_content(write.frame@) == Some(content@)
                },
                Ok(None) => self.has(fingerprint@),
                Err(error) => !self.has(fingerprint@) && error is Io,
            },
    {
        if self.holds(fingerprint) {
            return Ok(None);
        }
        let target_path = self.blob_path(fingerprint);
        let temp_path = temp_path_of(target_path.as_str());
        match compress(content) {
            Ok(frame) => Ok(Some(BlobWrite { temp_path, target_path, frame })),
            Err(error) => Err(error),
        }
    }

    /// Takes note that the file `path` now stands in the directory: that a
    /// blob was renamed into place. A temporary name is no blob, and no
    /// note is taken of it.
    pub fn commit(&mut self, path: &str)
        requires
            old(self).wf(),
        ensures
            final(self).wf(),
            final(self).dir() == old(self).dir(),
            final(self).files() == if is_temp(path@) {
                old(self).files()
            } else {
                with_file(old(self).files(), path@)
            },
    {
        if !is_temp_file(path) && !holds_text(&self.files, path) {
            let ghost before = texts(self.files@);
            self.files.push(String::from_str(path));
            assert(texts(self.files@) =~= before.push(path@));
        }
    }

    /// The files that no path of `live` names: the orphans. They are
    /// handed back to be removed, and the store counts them no longer.
    pub fn reclaim(&mut self, live: &Vec<String>) -> (removed: Vec<String>)
        requires
            old(self).wf(),
        ensures
            final(self).wf(),
            final(self).dir() == old(self).dir(),
            final(self).files() == kept(old(self).files(), texts(live@)),
            texts(removed@) == orphans(old(self).files(), texts(live@)),
    {
        let mut kept_files: Vec<String> = Vec::new();
        let mut removed: Vec<String> = Vec::new();
        let mut i: usize = 0;
        let ghost all = texts(self.files@);
        let ghost wanted = texts(live@);
        assert(texts(kept_files@) =~= Seq::<Seq<char>>::empty());
        assert(texts(removed@) =~= Seq::<Seq<char>>::empty());
        while i < self.files.len()
            invariant
                i <= self.files.len(),
                all == texts(self.files@),
                wanted == texts(live@),
                texts(kept_files@) == kept(all.take(i as int), wanted),
                texts(removed@) == orphans(all.take(i as int), wanted),
            decreases self.files.len() - i,
        {
            assert(all.take(i + 1).drop_last() == all.take(i as int));
            assert(all.take(i + 1).last() == self.files@[i as int]@);
            if holds_text(live, self.files[i].as_str()) {
                let ghost before = texts(kept_files@);
                kept_files.push(self.files[i].clone());
                assert(texts(kept_files@) =~= before.push(self.files@[i as int]@));
            } else {
                let ghost before = texts(removed@);
                removed.push(self.files[i].clone());
                assert(texts(removed@) =~= before.push(self.files@[i as int]@));
            }
            i += 1;
        }
        assert(all.take(self.files.len() as int) == all);
        proof {
            lemma_kept_orphans(all, wanted);
        }
        self.files = kept_files;
        removed
    }
}

/// What a removal of files has come to so far. A file that cannot be
/// removed does not stop the sweep: it is noted, and the sweep goes on.
#[derive(Debug)]
pub struct SweepSummary {
    /// How many files were removed.
    pub removed: usize,
    /// The files that could not be removed.
    pub failed: Vec<String>,
}

impl SweepSummary {
    /// The summary of a sweep that has not begun.
    pub fn new() -> (summary: SweepSummary)
        ensures
            summary.removed == 0,
            summary.failed@.len() == 0,
    {
        SweepSummary { removed: 0, failed: Vec::new() }
    }

    /// Takes note of whether the file `path` was removed.
    pub fn note(&mut self, path: &str, removed: bool)
        ensures
            removed ==> final(self).failed@ == old(self).failed@ && final(self).removed == if old(
                self,
            ).removed < usize::MAX {
                (old(self).removed + 1) as usize
            } else {
                old(self).removed
            },
            !removed ==> final(self).removed == old(self).removed && texts(final(self).failed@)
                == texts(old(self).failed@).push(path@),
    {
        if removed {
            if self.removed < usize::MAX {
                self.removed = self.removed + 1;
            }
        } else {
            let ghost before = texts(self.failed@);
            self.failed.push(String::from_str(path));
            assert(texts(self.failed@) =~= before.push(path@));
        }
    }
}

/// A sweep parts the files in two: those kept are the files that are live,
/// those removed the files that are not, and no file is both or neither.
pub proof fn lemma_kept_orphans(files: Seq<Seq<char>>, live: Seq<Seq<char>>)
    ensures
        forall|path: Seq<char>|
            #![trigger kept(files, live).contains(path)]
            #![trigger files.contains(path)]
            kept(files, live).contains(path) <==> files.contains(path) && live.contains(path),
        forall|path: Seq<char>|
            #![trigger orphans(files, live).contains(path)]
            #![trigger files.contains(path)]
            orphans(files, live).contains(path) <==> files.contains(path) && !live.contains(path),
        files.no_duplicates() ==> kept(files, live).no_duplicates(),
        kept(files, live).len() + orphans(files, live).len() == files.len(),
        forall|i: int|
            0 <= i < kept(files, live).len() ==> files.contains(#[trigger] kept(files, live)[i]),
    decreases files.len(),
{
    if files.len() > 0 {
        let front = files.drop_last();
        let last = files.last();
        lemma_kept_orphans(front, live);
        assert(files =~= front.push(last));
        assert forall|path: Seq<char>|
            #![trigger kept(files, live).contains(path)]
            #![trigger files.contains(path)]
            kept(files, live).contains(path) <==> files.contains(path) && live.contains(
                path,
            ) by {
            lemma_push_contains(front, last, path);
            lemma_push_contains(kept(front, live), last, path);
        }
        assert forall|path: Seq<char>|
            #![trigger orphans(files, live).contains(path)]
            #![trigger files.contains(path)]
            orphans(files, live).contains(path) <==> files.contains(path) && !live.contains(
                path,
            ) by {
            lemma_push_contains(front, last, path);
            lemma_push_contains(orphans(front, live), last, path);
        }
        if files.no_duplicates() {
            assert(front.no_duplicates());
            if live.contains(last) {
                assert(!front.contains(last)) by {
                    if front.contains(last) {
                        let k = choose|k: int| 0 <= k < front.len() && front[k] == last;
                        assert(files[k] == files[files.len() - 1]);
                    }
                }
                assert(!kept(front, live).contains(last));
            }
        }
        assert forall|i: int| 0 <= i < kept(files, live).len() implies files.contains(
            #[trigger] kept(files, live)[i],
        ) by {
            assert(kept(files, live).contains(kept(files, live)[i]));
        }
    }
}

/// A temporary name is never the name that it stands in for; and it is
/// marked as temporary wherever the target has a name at all.
pub proof fn lemma_temp_path(target: Seq<char>)
    ensures
        temp_path(target) != target,
        trimmed(target).len() > 0 ==> is_temp(temp_path(target)),
{
    reveal_strlit(".tmp");
    reveal_strlit("tmp");
    lemma_trimmed(target);
    let front = trimmed(target);
    let temp = temp_path(target);
    assert(temp.len() == front.len() + 4);
    assert(temp.last() == 'p');
    if temp == target {
        assert(front.len() < target.len());
        assert(target[target.len() - 1] == SEPARATOR);
    }
    if front.len() > 0 {
        assert(".tmp"@ =~= seq!['.'] + "tmp"@);
        assert(temp =~= front + seq!['.'] + "tmp"@);
        lemma_extension_of_built(front, "tmp"@);
    }
}

/// The names of a blob: under a fingerprint that is not empty and holds no
/// separator, the blob's name marks it as compressed, its temporary name
/// as temporary, and the two differ.
pub proof fn lemma_blob_names(dir: Seq<char>, fingerprint: Seq<char>)
    requires
        fingerprint.len() > 0,
        forall|j: int| 0 <= j < fingerprint.len() ==> fingerprint[j] != SEPARATOR,
    ensures
        is_compressed(blob_path(dir, fingerprint)),
        !is_temp(blob_path(dir, fingerprint)),
        is_temp(temp_path(blob_path(dir, fingerprint))),
        temp_path(blob_path(dir, fingerprint)) != blob_path(dir, fingerprint),
{
    reveal_strlit(".zstd");
    reveal_strlit("zstd");
    reveal_strlit("tmp");
    let rest = fingerprint + ".zstd"@;
    let blob = blob_path(dir, fingerprint);
    assert(rest[0] == fingerprint[0]);
    let stem = if dir.len() == 0 || dir.last() == SEPARATOR {
        dir + fingerprint
    } else {
        dir + seq![SEPARATOR] + fingerprint
    };
    assert(stem.last() == fingerprint.last());
    assert(".zstd"@ =~= seq!['.'] + "zstd"@);
    assert(blob =~= stem + seq!['.'] + "zstd"@);
    lemma_extension_of_built(stem, "zstd"@);
    assert(blob.last() == 'd');
    assert(trimmed(blob) == blob);
    lemma_temp_path(blob);
    assert("zstd"@.len() != "tmp"@.len());
}

/// A write that was cut short leaves no trace: where a temporary file was
/// written and the run ended before it was renamed, the store opens as if
/// the write had never begun. The temporary file is handed back to be
/// removed, and the store counts no file that it did not count before; in
/// particular nothing stands under the blob's name that did not already.
pub proof fn lemma_cut_short_write_is_swept(found: Seq<Seq<char>>, target: Seq<char>)
    requires
        is_temp(temp_path(target)),
    ensures
        settled(found.push(temp_path(target))) == settled(found),
        leftovers(found.push(temp_path(target))) == leftovers(found).push(temp_path(target)),
        settled(found.push(temp_path(target))).contains(target) == settled(found).contains(target),
{
    assert(found.push(temp_path(target)).drop_last() =~= found);
}

/// A store that is opened counts each file that is not temporary once, and
/// no temporary file at all.
pub proof fn lemma_settled(found: Seq<Seq<char>>)
    ensures
        settled(found).no_duplicates(),
        forall|path: Seq<char>|
            #![trigger settled(found).contains(path)]
            #![trigger found.contains(path)]
            settled(found).contains(path) <==> found.contains(path) && !is_temp(path),
        forall|path: Seq<char>|
            #![trigger leftovers(found).contains(path)]
            #![trigger found.contains(path)]
            leftovers(found).contains(path) <==> found.contains(path) && is_temp(path),
    decreases found.len(),
{
    if found.len() > 0 {
        let front = found.drop_last();
        let last = found.last();
        lemma_settled(front);
        assert(found =~= front.push(last));
        assert forall|path: Seq<char>|
            #![trigger settled(found).contains(path)]
            #![trigger found.contains(path)]
            settled(found).contains(path) <==> found.contains(path) && !is_temp(path) by {
            lemma_push_contains(front, last, path);
            lemma_push_contains(settled(front), last, path);
        }
        assert forall|path: Seq<char>|
            #![trigger leftovers(found).contains(path)]
            #![trigger found.contains(path)]
            leftovers(found).contains(path) <==> found.contains(path) && is_temp(path) by {
            lemma_push_contains(front, last, path);
            lemma_push_contains(leftovers(front), last, path);
        }
    }
}

/// One blob for one content: once a blob stands under its name, taking
/// note of it again changes nothing, and the name is counted once. So
/// captures of equal contents, which have equal fingerprints and so the
/// same blob name, leave exactly one blob.
pub proof fn lemma_one_blob_for_one_content(files: Seq<Seq<char>>, blob: Seq<char>)
    requires
        files.no_duplicates(),
    ensures
        with_file(files, blob).contains(blob),
        with_file(files, blob).no_duplicates(),
        with_file(with_file(files, blob), blob) == with_file(files, blob),
{
    lemma_push_contains(files, blob, blob);
    if !files.contains(blob) {
        let out = files.push(blob);
        assert forall|i: int, j: int| 0 <= i < out.len() && 0 <= j < out.len() && i != j implies out[i]
            != out[j] by {
            if i == files.len() {
                assert(files.contains(out[j])) by {
                    assert(files[j] == out[j]);
                }
            }
            if j == files.len() {
                assert(files.contains(out[i])) by {
                    assert(files[i] == out[i]);
                }
            }
        }
    }
}

} // verus!
