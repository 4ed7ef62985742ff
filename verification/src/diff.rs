//! Line-by-line comparison of two texts.
//!
//! A comparison is a script of lines kept, removed and added that takes
//! the old text to the new one. It keeps the longest run of lines that the
//! two texts have in common, in their order, so that it changes as few
//! lines as any script can. Finding that run takes room for one count for
//! each pair of an old and a new line.

use vstd::prelude::*;
use crate::text::{chars_of, push_all, push_str, same_chars, slice_of, string_of};
use crate::checksum::{fingerprint, fingerprint_of};
use crate::utils::{is_binary, looks_binary};

verus! {

/// The text that `bytes` decode to as UTF-8, each invalid sequence being
/// replaced by U+FFFD.
pub uninterp spec fn lossy_text(bytes: Seq<u8>) -> Seq<char>;

/// `String::from_utf8_lossy`. Valid UTF-8 decodes to the text that it
/// encodes; what invalid bytes turn into depends on the bytes alone.
#[verifier::external_body]
fn utf8_lossy(bytes: &[u8]) -> (text: String)
    ensures
        text@ == lossy_text(bytes@),
        vstd::utf8::valid_utf8(bytes@) ==> text@ == vstd::utf8::decode_utf8(bytes@),
{
    String::from_utf8_lossy(bytes).into_owned()
}

/// The position of the first line feed of `text` at or after `from`, or the
/// length of `text` where none follows.
pub open spec fn line_end(text: Seq<char>, from: int) -> int
    decreases text.len() - from,
{
    if from >= text.len() {
        text.len() as int
    } else if text[from] == '\n' {
        from
    } else {
        line_end(text, from + 1)
    }
}

/// The line that `text` holds from `from` to `end`: without the carriage
/// return before a line feed at `end`.
pub open spec fn line_at(text: Seq<char>, from: int, end: int) -> Seq<char> {
    if end < text.len() && from < end && text[end - 1] == '\r' {
        text.subrange(from, end - 1)
    } else {
        text.subrange(from, end)
    }
}

/// The lines of `text` from position `from` on. A line ends in a line feed
/// or in a carriage return and a line feed, neither of which belongs to
/// it; the last line need not end so.
pub open spec fn lines_from(text: Seq<char>, from: int) -> Seq<Seq<char>>
    decreases text.len() - from,
{
    if from < 0 || from >= text.len() {
        Seq::empty()
    } else {
        let end = line_end(text, from);
        if from <= end < text.len() {
            seq![line_at(text, from, end)] + lines_from(text, end + 1)
        } else {
            seq![line_at(text, from, end)]
        }
    }
}

/// The lines of `text`.
pub open spec fn lines_of(text: Seq<char>) -> Seq<Seq<char>> {
    lines_from(text, 0)
}

/// The line feed that `line_end` finds lies at or after `from`, within the
/// text, and no line feed comes before it.
pub proof fn lemma_line_end(text: Seq<char>, from: int)
    requires
        0 <= from <= text.len(),
    ensures
        from <= line_end(text, from) <= text.len(),
        line_end(text, from) < text.len() ==> text[line_end(text, from)] == '\n',
        forall|k: int| from <= k < line_end(text, from) ==> text[k] != '\n',
    decreases text.len() - from,
{
    if from < text.len() && text[from] != '\n' {
        lemma_line_end(text, from + 1);
    }
}

/// The views of `lines`.
pub open spec fn texts_of(lines: Seq<Vec<char>>) -> Seq<Seq<char>> {
    lines.map_values(|line: Vec<char>| line@)
}

/// The lines of `text`.
pub fn split_lines(text: &[char]) -> (lines: Vec<Vec<char>>)
    ensures
        texts_of(lines@) == lines_of(text@),
{
    let mut lines: Vec<Vec<char>> = Vec::new();
    let mut from: usize = 0;
    assert(texts_of(lines@) =~= Seq::<Seq<char>>::empty());
    while from < text.len()
        invariant
            from <= text.len(),
            lines_of(text@) == texts_of(lines@) + lines_from(text@, from as int),
        decreases text.len() - from,
    {
        let mut end: usize = from;
        while end < text.len() && text[end] != '\n'
            invariant
                from <= end <= text.len(),
                line_end(text@, from as int) == line_end(text@, end as int),
            decreases text.len() - end,
        {
            end += 1;
        }
        assert(end == line_end(text@, from as int));
        let line = if end < text.len() && from < end && text[end - 1] == '\r' {
            slice_of(text, from, end - 1)
        } else {
            slice_of(text, from, end)
        };
        assert(line@ == line_at(text@, from as int, end as int));
        let ghost before = texts_of(lines@);
        lines.push(line);
        assert(texts_of(lines@) =~= before.push(line@));
        proof {
            lemma_line_end(text@, from as int);
        }
        if end == text.len() {
            assert(lines_from(text@, from as int) =~= seq![line@]);
            from = end;
            assert(lines_from(text@, from as int) =~= Seq::<Seq<char>>::empty());
        } else {
            assert(lines_from(text@, from as int) =~= seq![line@] + lines_from(text@, end + 1));
            from = end + 1;
        }
        assert(lines_of(text@) =~= texts_of(lines@) + lines_from(text@, from as int));
    }
    lines
}

/// One line of a comparison.
#[derive(Debug)]
pub enum DiffLine {
    /// Both texts have the line.
    Keep(Vec<char>),
    /// Only the old text has the line.
    Remove(Vec<char>),
    /// Only the new text has the line.
    Add(Vec<char>),
}

/// One line of a comparison, as a value.
pub enum Edit {
    Keep(Seq<char>),
    Remove(Seq<char>),
    Add(Seq<char>),
}

impl View for DiffLine {
    type V = Edit;

    open spec fn view(&self) -> Edit {
        match self {
            DiffLine::Keep(line) => Edit::Keep(line@),
            DiffLine::Remove(line) => Edit::Remove(line@),
            DiffLine::Add(line) => Edit::Add(line@),
        }
    }
}

/// The edits that `lines` stand for.
pub open spec fn edits_of(lines: Seq<DiffLine>) -> Seq<Edit> {
    lines.map_values(|line: DiffLine| line@)
}

/// The length of the longest run of lines that `old` and `new` have in
/// common, in their order: the most lines that a comparison can keep.
pub open spec fn lcs_len(old: Seq<Seq<char>>, new: Seq<Seq<char>>) -> nat
    decreases old.len() + new.len(),
{
    if old.len() == 0 || new.len() == 0 {
        0
    } else if old.last() == new.last() {
        lcs_len(old.drop_last(), new.drop_last()) + 1
    } else {
        let without_old = lcs_len(old.drop_last(), new);
        let without_new = lcs_len(old, new.drop_last());
        if without_old >= without_new {
            without_old
        } else {
            without_new
        }
    }
}

/// The comparison of the lines `old` with the lines `new`: a script that
/// keeps as many lines as the two have in common, and removes and adds the
/// others. Where a line is changed, the old line is removed before the new
/// one is added.
pub open spec fn edits(old: Seq<Seq<char>>, new: Seq<Seq<char>>) -> Seq<Edit>
    decreases old.len() + new.len(),
{
    if old.len() == 0 && new.len() == 0 {
        Seq::empty()
    } else if old.len() == 0 {
        edits(old, new.drop_last()).push(Edit::Add(new.last()))
    } else if new.len() == 0 {
        edits(old.drop_last(), new).push(Edit::Remove(old.last()))
    } else if old.last() == new.last() {
        edits(old.drop_last(), new.drop_last()).push(Edit::Keep(old.last()))
    } else if lcs_len(old, new.drop_last()) >= lcs_len(old.drop_last(), new) {
        edits(old, new.drop_last()).push(Edit::Add(new.last()))
    } else {
        edits(old.drop_last(), new).push(Edit::Remove(old.last()))
    }
}


/// The lines that the old text had: those kept and those removed.
pub open spec fn old_side(script: Seq<Edit>) -> Seq<Seq<char>>
    decreases script.len(),
{
    if script.len() == 0 {
        Seq::empty()
    } else {
        match script.last() {
            Edit::Keep(line) => old_side(script.drop_last()).push(line),
            Edit::Remove(line) => old_side(script.drop_last()).push(line),
            Edit::Add(_) => old_side(script.drop_last()),
        }
    }
}

/// The lines that the new text has: those kept and those added.
pub open spec fn new_side(script: Seq<Edit>) -> Seq<Seq<char>>
    decreases script.len(),
{
    if script.len() == 0 {
        Seq::empty()
    } else {
        match script.last() {
            Edit::Keep(line) => new_side(script.drop_last()).push(line),
            Edit::Add(line) => new_side(script.drop_last()).push(line),
            Edit::Remove(_) => new_side(script.drop_last()),
        }
    }
}

/// How many lines `script` adds.
pub open spec fn added(script: Seq<Edit>) -> nat
    decreases script.len(),
{
    if script.len() == 0 {
        0
    } else if script.last() is Add {
        added(script.drop_last()) + 1
    } else {
        added(script.drop_last())
    }
}

/// How many lines `script` removes.
pub open spec fn removed(script: Seq<Edit>) -> nat
    decreases script.len(),
{
    if script.len() == 0 {
        0
    } else if script.last() is Remove {
        removed(script.drop_last()) + 1
    } else {
        removed(script.drop_last())
    }
}

/// What one more edit does to the counts.
pub proof fn lemma_counts_push(script: Seq<Edit>, edit: Edit)
    ensures
        added(script.push(edit)) == added(script) + if edit is Add {
            1nat
        } else {
            0nat
        },
        removed(script.push(edit)) == removed(script) + if edit is Remove {
            1nat
        } else {
            0nat
        },
{
    assert(script.push(edit).drop_last() =~= script);
}

/// What one more edit does to the two sides.
pub proof fn lemma_sides_push(script: Seq<Edit>, edit: Edit)
    ensures
        old_side(script.push(edit)) == match edit {
            Edit::Keep(line) => old_side(script).push(line),
            Edit::Remove(line) => old_side(script).push(line),
            Edit::Add(_) => old_side(script),
        },
        new_side(script.push(edit)) == match edit {
            Edit::Keep(line) => new_side(script).push(line),
            Edit::Add(line) => new_side(script).push(line),
            Edit::Remove(_) => new_side(script),
        },
{
    assert(script.push(edit).drop_last() =~= script);
}

/// How many lines `script` keeps.
pub open spec fn kept_lines(script: Seq<Edit>) -> nat
    decreases script.len(),
{
    if script.len() == 0 {
        0
    } else if script.last() is Keep {
        kept_lines(script.drop_last()) + 1
    } else {
        kept_lines(script.drop_last())
    }
}

/// What one more edit does to the number of kept lines.
pub proof fn lemma_kept_push(script: Seq<Edit>, edit: Edit)
    ensures
        kept_lines(script.push(edit)) == kept_lines(script) + if edit is Keep {
            1nat
        } else {
            0nat
        },
{
    assert(script.push(edit).drop_last() =~= script);
}

/// Two texts have no more lines in common than either has.
pub proof fn lemma_lcs_bound(old: Seq<Seq<char>>, new: Seq<Seq<char>>)
    ensures
        lcs_len(old, new) <= old.len(),
        lcs_len(old, new) <= new.len(),
    decreases old.len() + new.len(),
{
    if old.len() > 0 && new.len() > 0 {
        if old.last() == new.last() {
            lemma_lcs_bound(old.drop_last(), new.drop_last());
        } else {
            lemma_lcs_bound(old.drop_last(), new);
            lemma_lcs_bound(old, new.drop_last());
        }
    }
}

/// A comparison takes the old text to the new one: the lines that it
/// keeps and removes are the old lines, in their order, and the lines that
/// it keeps and adds are the new lines.
pub proof fn lemma_diff_rebuilds_both(old: Seq<Seq<char>>, new: Seq<Seq<char>>)
    ensures
        old_side(edits(old, new)) == old,
        new_side(edits(old, new)) == new,
    decreases old.len() + new.len(),
{
    if old.len() == 0 && new.len() == 0 {
        assert(old =~= Seq::<Seq<char>>::empty());
        assert(new =~= Seq::<Seq<char>>::empty());
    } else if old.len() == 0 {
        lemma_diff_rebuilds_both(old, new.drop_last());
        lemma_sides_push(edits(old, new.drop_last()), Edit::Add(new.last()));
        assert(new =~= new.drop_last().push(new.last()));
    } else if new.len() == 0 {
        lemma_diff_rebuilds_both(old.drop_last(), new);
        lemma_sides_push(edits(old.drop_last(), new), Edit::Remove(old.last()));
        assert(old =~= old.drop_last().push(old.last()));
    } else if old.last() == new.last() {
        lemma_diff_rebuilds_both(old.drop_last(), new.drop_last());
        lemma_sides_push(edits(old.drop_last(), new.drop_last()), Edit::Keep(old.last()));
        assert(old =~= old.drop_last().push(old.last()));
        assert(new =~= new.drop_last().push(new.last()));
    } else if lcs_len(old, new.drop_last()) >= lcs_len(old.drop_last(), new) {
        lemma_diff_rebuilds_both(old, new.drop_last());
        lemma_sides_push(edits(old, new.drop_last()), Edit::Add(new.last()));
        assert(new =~= new.drop_last().push(new.last()));
    } else {
        lemma_diff_rebuilds_both(old.drop_last(), new);
        lemma_sides_push(edits(old.drop_last(), new), Edit::Remove(old.last()));
        assert(old =~= old.drop_last().push(old.last()));
    }
}

/// A text compared with itself shows no difference: nothing is added and
/// nothing removed.
pub proof fn lemma_diff_of_same_is_empty(lines: Seq<Seq<char>>)
    ensures
        added(edits(lines, lines)) == 0,
        removed(edits(lines, lines)) == 0,
    decreases lines.len(),
{
    if lines.len() > 0 {
        lemma_diff_of_same_is_empty(lines.drop_last());
        lemma_counts_push(edits(lines.drop_last(), lines.drop_last()), Edit::Keep(lines.last()));
    }
}

/// One more line on either side adds at most one common line and takes
/// none away.
pub proof fn lemma_lcs_step(old: Seq<Seq<char>>, new: Seq<Seq<char>>)
    ensures
        old.len() > 0 ==> lcs_len(old.drop_last(), new) <= lcs_len(old, new) <= lcs_len(
            old.drop_last(),
            new,
        ) + 1,
        new.len() > 0 ==> lcs_len(old, new.drop_last()) <= lcs_len(old, new) <= lcs_len(
            old,
            new.drop_last(),
        ) + 1,
    decreases old.len() + new.len(),
{
    if old.len() > 0 && new.len() > 0 {
        lemma_lcs_step(old.drop_last(), new);
        lemma_lcs_step(old, new.drop_last());
        lemma_lcs_step(old.drop_last(), new.drop_last());
    }
}

/// No script keeps more: a script that takes an old text to a new one
/// keeps at most as many lines as the two texts have in common. So the
/// comparison, which keeps that many, changes as few lines as any.
pub proof fn lemma_no_script_keeps_more(script: Seq<Edit>)
    ensures
        kept_lines(script) <= lcs_len(old_side(script), new_side(script)),
    decreases script.len(),
{
    if script.len() > 0 {
        let front = script.drop_last();
        let old = old_side(script);
        let new = new_side(script);
        lemma_no_script_keeps_more(front);
        lemma_lcs_step(old, new);
        match script.last() {
            Edit::Keep(line) => {
                assert(old.drop_last() =~= old_side(front));
                assert(new.drop_last() =~= new_side(front));
            },
            Edit::Remove(line) => {
                assert(old.drop_last() =~= old_side(front));
            },
            Edit::Add(line) => {
                assert(new.drop_last() =~= new_side(front));
            },
        }
    }
}

/// A comparison keeps as many lines as the two texts have in common, and
/// so changes as few as can be: it removes the other old lines and adds
/// the other new ones, and no more.
pub proof fn lemma_diff_keeps_the_common_lines(old: Seq<Seq<char>>, new: Seq<Seq<char>>)
    ensures
        kept_lines(edits(old, new)) == lcs_len(old, new),
        removed(edits(old, new)) == old.len() - lcs_len(old, new),
        added(edits(old, new)) == new.len() - lcs_len(old, new),
    decreases old.len() + new.len(),
{
    if old.len() == 0 && new.len() == 0 {
    } else if old.len() == 0 {
        lemma_diff_keeps_the_common_lines(old, new.drop_last());
        lemma_kept_push(edits(old, new.drop_last()), Edit::Add(new.last()));
        lemma_counts_push(edits(old, new.drop_last()), Edit::Add(new.last()));
    } else if new.len() == 0 {
        lemma_diff_keeps_the_common_lines(old.drop_last(), new);
        lemma_kept_push(edits(old.drop_last(), new), Edit::Remove(old.last()));
        lemma_counts_push(edits(old.drop_last(), new), Edit::Remove(old.last()));
    } else if old.last() == new.last() {
        lemma_diff_keeps_the_common_lines(old.drop_last(), new.drop_last());
        lemma_kept_push(edits(old.drop_last(), new.drop_last()), Edit::Keep(old.last()));
        lemma_counts_push(edits(old.drop_last(), new.drop_last()), Edit::Keep(old.last()));
    } else if lcs_len(old, new.drop_last()) >= lcs_len(old.drop_last(), new) {
        lemma_diff_keeps_the_common_lines(old, new.drop_last());
        lemma_kept_push(edits(old, new.drop_last()), Edit::Add(new.last()));
        lemma_counts_push(edits(old, new.drop_last()), Edit::Add(new.last()));
    } else {
        lemma_diff_keeps_the_common_lines(old.drop_last(), new);
        lemma_kept_push(edits(old.drop_last(), new), Edit::Remove(old.last()));
        lemma_counts_push(edits(old.drop_last(), new), Edit::Remove(old.last()));
    }
}


/// A comparison of two texts line by line.
#[derive(Debug)]
pub struct UnifiedDiff {
    /// The lines of the comparison, in the order of the texts.
    pub lines: Vec<DiffLine>,
    /// How many lines were added.
    pub added: usize,
    /// How many lines were removed.
    pub removed: usize,
}

impl UnifiedDiff {
    /// The counts are those of the lines.
    pub open spec fn wf(&self) -> bool {
        &&& self.added == added(edits_of(self.lines@))
        &&& self.removed == removed(edits_of(self.lines@))
    }

    /// Whether the comparison found no difference.
    pub fn is_empty(&self) -> (empty: bool)
        ensures
            empty == (self.added == 0 && self.removed == 0),
    {
        self.added == 0 && self.removed == 0
    }
}

/// The table of common lines: the entry in row `i` at `j` is the number
/// of lines that the first `i + 1` old lines and the first `j + 1` new
/// lines have in common.
pub open spec fn is_lcs_table(
    rows: Seq<Vec<usize>>,
    old: Seq<Seq<char>>,
    new: Seq<Seq<char>>,
    upto: int,
) -> bool {
    &&& rows.len() == upto
    &&& forall|i: int| 0 <= i < upto ==> (#[trigger] rows[i])@.len() == new.len()
    &&& forall|i: int, j: int|
        0 <= i < upto && 0 <= j < new.len() ==> (#[trigger] rows[i]@[j]) == lcs_len(
            old.take(i + 1),
            new.take(j + 1),
        )
}

/// The number of lines that the first `i` old lines and the first `j` new
/// lines have in common, read from the table.
fn common(rows: &Vec<Vec<usize>>, i: usize, j: usize, Ghost(old): Ghost<Seq<Seq<char>>>, Ghost(
    new,
): Ghost<Seq<Seq<char>>>) -> (count: usize)
    requires
        is_lcs_table(rows@, old, new, rows@.len() as int),
        i <= rows@.len(),
        rows@.len() <= old.len(),
        j <= new.len(),
    ensures
        count == lcs_len(old.take(i as int), new.take(j as int)),
{
    if i == 0 || j == 0 {
        0
    } else {
        rows[i - 1][j - 1]
    }
}

/// The table of common lines of `old` and `new`.
fn lcs_table(old: &Vec<Vec<char>>, new: &Vec<Vec<char>>) -> (rows: Vec<Vec<usize>>)
    ensures
        is_lcs_table(rows@, texts_of(old@), texts_of(new@), old@.len() as int),
{
    let ghost a = texts_of(old@);
    let ghost b = texts_of(new@);
    let mut rows: Vec<Vec<usize>> = Vec::new();
    let mut i: usize = 0;
    while i < old.len()
        invariant
            a == texts_of(old@),
            b == texts_of(new@),
            i <= old.len(),
            is_lcs_table(rows@, a, b, i as int),
        decreases old.len() - i,
    {
        let mut row: Vec<usize> = Vec::new();
        let mut j: usize = 0;
        while j < new.len()
            invariant
                a == texts_of(old@),
                b == texts_of(new@),
                i < old.len(),
                j <= new.len(),
                is_lcs_table(rows@, a, b, i as int),
                row@.len() == j,
                forall|k: int|
                    0 <= k < j ==> (#[trigger] row@[k]) == lcs_len(a.take(i + 1), b.take(k + 1)),
            decreases new.len() - j,
        {
            let ghost here_old = a.take(i + 1);
            let ghost here_new = b.take(j + 1);
            assert(here_old.drop_last() =~= a.take(i as int));
            assert(here_new.drop_last() =~= b.take(j as int));
            assert(here_old.last() == old@[i as int]@);
            assert(here_new.last() == new@[j as int]@);
            let diagonal = common(&rows, i, j, Ghost(a), Ghost(b));
            let above = common(&rows, i, j + 1, Ghost(a), Ghost(b));
            let left = if j == 0 {
                0
            } else {
                row[j - 1]
            };
            assert(left == lcs_len(here_old, b.take(j as int)));
            let value = if same_chars(old[i].as_slice(), new[j].as_slice()) {
                proof {
                    lemma_lcs_bound(a.take(i as int), b.take(j as int));
                }
                diagonal + 1
            } else if above >= left {
                above
            } else {
                left
            };
            assert(value == lcs_len(here_old, here_new));
            row.push(value);
            j += 1;
        }
        let ghost before = rows@;
        rows.push(row);
        assert forall|r: int, c: int| 0 <= r < i + 1 && 0 <= c < b.len() implies (
        #[trigger] rows@[r]@[c]) == lcs_len(a.take(r + 1), b.take(c + 1)) by {
            if r < i {
                assert(rows@[r] == before[r]);
            }
        }
        assert forall|r: int| 0 <= r < i + 1 implies (#[trigger] rows@[r])@.len() == b.len() by {
            if r < i {
                assert(rows@[r] == before[r]);
            }
        }
        i += 1;
    }
    rows
}

fn copy_line(line: &DiffLine) -> (copy: DiffLine)
    ensures
        copy@ == line@,
{
    match line {
        DiffLine::Keep(text) => DiffLine::Keep(text.clone()),
        DiffLine::Remove(text) => DiffLine::Remove(text.clone()),
        DiffLine::Add(text) => DiffLine::Add(text.clone()),
    }
}

/// The comparison of the lines `old` with the lines `new`. It keeps as
/// many lines as the two have in common.
pub fn diff_lines(old: &Vec<Vec<char>>, new: &Vec<Vec<char>>) -> (diff: UnifiedDiff)
    ensures
        edits_of(diff.lines@) == edits(texts_of(old@), texts_of(new@)),
        diff.wf(),
        old_side(edits_of(diff.lines@)) == texts_of(old@),
        new_side(edits_of(diff.lines@)) == texts_of(new@),
        kept_lines(edits_of(diff.lines@)) == lcs_len(texts_of(old@), texts_of(new@)),
{
    let ghost a = texts_of(old@);
    let ghost b = texts_of(new@);
    let rows = lcs_table(old, new);
    // From the end of both texts back to their beginning.
    let mut back: Vec<DiffLine> = Vec::new();
    let ghost mut tail: Seq<Edit> = Seq::empty();
    let mut i: usize = old.len();
    let mut j: usize = new.len();
    assert(a.take(i as int) =~= a);
    assert(b.take(j as int) =~= b);
    assert(edits(a, b) =~= edits(a.take(i as int), b.take(j as int)) + tail);
    while i > 0 || j > 0
        invariant
            a == texts_of(old@),
            b == texts_of(new@),
            is_lcs_table(rows@, a, b, old@.len() as int),
            i <= old.len(),
            j <= new.len(),
            edits(a, b) == edits(a.take(i as int), b.take(j as int)) + tail,
            back@.len() == tail.len(),
            forall|k: int| 0 <= k < tail.len() ==> (#[trigger] back@[k])@ == tail[tail.len() - 1 - k],
        decreases i + j,
    {
        let ghost here_old = a.take(i as int);
        let ghost here_new = b.take(j as int);
        let ghost before = tail;
        let ghost lines_before = back@;
        proof {
            if i > 0 {
                assert(here_old.drop_last() =~= a.take(i - 1));
                assert(here_old.last() == old@[i - 1]@);
            }
            if j > 0 {
                assert(here_new.drop_last() =~= b.take(j - 1));
                assert(here_new.last() == new@[j - 1]@);
            }
        }
        let step: DiffLine;
        if i == 0 {
            step = DiffLine::Add(new[j - 1].clone());
            j -= 1;
        } else if j == 0 {
            step = DiffLine::Remove(old[i - 1].clone());
            i -= 1;
        } else if same_chars(old[i - 1].as_slice(), new[j - 1].as_slice()) {
            step = DiffLine::Keep(old[i - 1].clone());
            i -= 1;
            j -= 1;
        } else {
            let without_new = common(&rows, i, j - 1, Ghost(a), Ghost(b));
            let without_old = common(&rows, i - 1, j, Ghost(a), Ghost(b));
            if without_new >= without_old {
                step = DiffLine::Add(new[j - 1].clone());
                j -= 1;
            } else {
                step = DiffLine::Remove(old[i - 1].clone());
                i -= 1;
            }
        }
        proof {
            tail = seq![step@] + before;
            assert(edits(here_old, here_new) == edits(a.take(i as int), b.take(j as int)).push(
                step@,
            ));
            assert(edits(a, b) =~= edits(a.take(i as int), b.take(j as int)) + tail);
        }
        back.push(step);
        assert forall|k: int| 0 <= k < tail.len() implies (#[trigger] back@[k])@ == tail[tail.len()
            - 1 - k] by {
            if k < before.len() {
                assert(back@[k] == lines_before[k]);
            }
        }
    }
    assert(edits(a.take(0), b.take(0)) =~= Seq::<Edit>::empty());
    assert(tail =~= edits(a, b));
    // And forward again.
    let mut lines: Vec<DiffLine> = Vec::new();
    let mut added_count: usize = 0;
    let mut removed_count: usize = 0;
    let mut k: usize = back.len();
    assert(edits_of(lines@) =~= tail.take(0));
    while k > 0
        invariant
            k <= back@.len(),
            back@.len() == tail.len(),
            forall|t: int| 0 <= t < tail.len() ==> (#[trigger] back@[t])@ == tail[tail.len() - 1 - t],
            lines@.len() == back@.len() - k,
            edits_of(lines@) == tail.take(back@.len() - k),
            added_count == added(edits_of(lines@)),
            removed_count == removed(edits_of(lines@)),
            added_count <= lines@.len(),
            removed_count <= lines@.len(),
        decreases k,
    {
        k -= 1;
        let line = copy_line(&back[k]);
        let ghost before = edits_of(lines@);
        proof {
            lemma_counts_push(before, line@);
            assert(line@ == tail[tail.len() - 1 - k]);
        }
        match line {
            DiffLine::Add(_) => {
                added_count += 1;
            },
            DiffLine::Remove(_) => {
                removed_count += 1;
            },
            DiffLine::Keep(_) => {},
        }
        lines.push(line);
        assert(edits_of(lines@) =~= before.push(tail[tail.len() - 1 - k]));
        assert(edits_of(lines@) =~= tail.take(back@.len() - k));
    }
    assert(tail.take(tail.len() as int) =~= tail);
    proof {
        lemma_diff_rebuilds_both(a, b);
        lemma_diff_keeps_the_common_lines(a, b);
    }
    UnifiedDiff { lines, added: added_count, removed: removed_count }
}

/// The comparison of the text `old` with the text `new`.
pub fn diff(old: &str, new: &str) -> (diff: UnifiedDiff)
    ensures
        edits_of(diff.lines@) == edits(lines_of(old@), lines_of(new@)),
        diff.wf(),
        old_side(edits_of(diff.lines@)) == lines_of(old@),
        new_side(edits_of(diff.lines@)) == lines_of(new@),
        kept_lines(edits_of(diff.lines@)) == lcs_len(lines_of(old@), lines_of(new@)),
{
    let old_lines = split_lines(chars_of(old).as_slice());
    let new_lines = split_lines(chars_of(new).as_slice());
    diff_lines(&old_lines, &new_lines)
}


/// An edit as a line of text: the line behind a space, a minus or a plus
/// sign.
pub open spec fn edit_text(edit: Edit) -> Seq<char> {
    match edit {
        Edit::Keep(line) => seq![' '] + line + seq!['\n'],
        Edit::Remove(line) => seq!['-'] + line + seq!['\n'],
        Edit::Add(line) => seq!['+'] + line + seq!['\n'],
    }
}

/// The edits of `script` as lines of text.
pub open spec fn script_text(script: Seq<Edit>) -> Seq<char>
    decreases script.len(),
{
    if script.len() == 0 {
        Seq::empty()
    } else {
        script_text(script.drop_last()) + edit_text(script.last())
    }
}

/// A comparison as text: the two names, then the edits.
pub open spec fn diff_text(old_name: Seq<char>, new_name: Seq<char>, script: Seq<Edit>) -> Seq<
    char,
> {
    "--- "@ + old_name + "\n"@ + "+++ "@ + new_name + "\n"@ + script_text(script)
}

impl UnifiedDiff {
    /// The comparison as text.
    pub fn render(&self, old_name: &str, new_name: &str) -> (text: String)
        ensures
            text@ == diff_text(old_name@, new_name@, edits_of(self.lines@)),
    {
        let mut out: Vec<char> = Vec::new();
        push_str(&mut out, "--- ");
        push_str(&mut out, old_name);
        push_str(&mut out, "\n");
        push_str(&mut out, "+++ ");
        push_str(&mut out, new_name);
        push_str(&mut out, "\n");
        let ghost head = out@;
        let ghost script = edits_of(self.lines@);
        assert(head =~= "--- "@ + old_name@ + "\n"@ + "+++ "@ + new_name@ + "\n"@);
        let mut i: usize = 0;
        assert(out@ =~= head + script_text(script.take(0)));
        while i < self.lines.len()
            invariant
                i <= self.lines.len(),
                script == edits_of(self.lines@),
                out@ == head + script_text(script.take(i as int)),
            decreases self.lines.len() - i,
        {
            let ghost before = out@;
            match &self.lines[i] {
                DiffLine::Keep(line) => {
                    out.push(' ');
                    push_all(&mut out, line.as_slice());
                },
                DiffLine::Remove(line) => {
                    out.push('-');
                    push_all(&mut out, line.as_slice());
                },
                DiffLine::Add(line) => {
                    out.push('+');
                    push_all(&mut out, line.as_slice());
                },
            }
            out.push('\n');
            assert(out@ =~= before + edit_text(script[i as int]));
            assert(script.take(i + 1).drop_last() == script.take(i as int));
            i += 1;
        }
        assert(script.take(self.lines.len() as int) == script);
        string_of(out.as_slice())
    }
}

/// The comparison of two contents as text. The contents are read as UTF-8;
/// bytes that are none are replaced.
pub fn diff_contents(old_name: &str, new_name: &str, old: &[u8], new: &[u8]) -> (text: String)
    ensures
        text@ == diff_text(
            old_name@,
            new_name@,
            edits(lines_of(lossy_text(old@)), lines_of(lossy_text(new@))),
        ),
        vstd::utf8::valid_utf8(old@) ==> lossy_text(old@) == vstd::utf8::decode_utf8(old@),
        vstd::utf8::valid_utf8(new@) ==> lossy_text(new@) == vstd::utf8::decode_utf8(new@),
{
    let old_text = utf8_lossy(old);
    let new_text = utf8_lossy(new);
    diff(old_text.as_str(), new_text.as_str()).render(old_name, new_name)
}

/// How the size of a content has changed: in which direction and by how
/// many bytes.
#[derive(Clone, Copy, Debug, PartialEq, Eq, Structural)]
pub enum SizeChange {
    Same,
    Grew(usize),
    Shrank(usize),
}

/// How the size has changed from `old` bytes to `new` bytes.
pub open spec fn size_change(old: int, new: int) -> SizeChange {
    if new > old {
        SizeChange::Grew((new - old) as usize)
    } else if new < old {
        SizeChange::Shrank((old - new) as usize)
    } else {
        SizeChange::Same
    }
}

/// How the size has changed from `old` bytes to `new` bytes.
pub fn compare_sizes(old: usize, new: usize) -> (change: SizeChange)
    ensures
        change == size_change(old as int, new as int),
{
    if new > old {
        SizeChange::Grew(new - old)
    } else if new < old {
        SizeChange::Shrank(old - new)
    } else {
        SizeChange::Same
    }
}

/// What the comparison of two contents shows.
#[derive(Debug)]
pub enum Comparison {
    /// The contents have the same fingerprint: they are the same.
    Identical,
    /// The fingerprints differ and one of the contents counts as binary:
    /// only the sizes are compared.
    Binary(SizeChange),
    /// The fingerprints differ and both contents count as text: they are
    /// compared line by line.
    Text(UnifiedDiff),
}

/// Compares the content `old` with the content `new`. Contents with the
/// same bytes are identical.
pub fn compare(old: &[u8], new: &[u8]) -> (comparison: Comparison)
    ensures
        old@ == new@ ==> comparison is Identical,
        match comparison {
            Comparison::Identical => fingerprint_of(old@) == fingerprint_of(new@),
            Comparison::Binary(change) => {
                &&& fingerprint_of(old@) != fingerprint_of(new@)
                &&& looks_binary(old@) || looks_binary(new@)
                &&& change == size_change(old@.len() as int, new@.len() as int)
            },
            Comparison::Text(diff) => {
                &&& fingerprint_of(old@) != fingerprint_of(new@)
                &&& !looks_binary(old@)
                &&& !looks_binary(new@)
                &&& edits_of(diff.lines@) == edits(
                    lines_of(lossy_text(old@)),
                    lines_of(lossy_text(new@)),
                )
                &&& diff.wf()
            },
        },
{
    if fingerprint(old) == fingerprint(new) {
        Comparison::Identical
    } else if is_binary(old) || is_binary(new) {
        Comparison::Binary(compare_sizes(old.len(), new.len()))
    } else {
        let old_text = utf8_lossy(old);
        let new_text = utf8_lossy(new);
        Comparison::Text(diff(old_text.as_str(), new_text.as_str()))
    }
}

} // verus!
