//! The metadata index: one row for each capture, and the exclusion rules.
//!
//! The index is a table held in memory. Rows stand in the order in which
//! they were inserted, each under an id that no other row has or had.
//! Queries hand out copies, newest first. Texts are held against each
//! other exactly: case counts, and no character stands for another.

use vstd::prelude::*;
use crate::order::{in_order, is_strict_order, lemma_placed_at, lemma_placed_in_order,
    lemma_placed_members, placed};
use crate::error::EngineError;
use crate::path::{is_below, is_within, lies_below};
use crate::snapshot::{Record, Snapshot};
use crate::store::{kept, orphans, ContentStore};
use crate::text::{chars_of, comes_before, contains, holds_text, lemma_lex_asymmetric,
    lemma_lex_irreflexive, lemma_lex_total, lemma_lex_transitive, lex_less, occurs_in, same_chars,
    starts_with, texts};

verus! {

/// A row of the index: a snapshot under its id.
#[derive(Debug)]
pub struct Entry {
    pub id: i64,
    pub snapshot: Snapshot,
}

/// A row as a value of texts and numbers.
pub struct Row {
    pub id: int,
    pub record: Record,
}

impl View for Entry {
    type V = Row;

    open spec fn view(&self) -> Row {
        Row { id: self.id as int, record: self.snapshot@ }
    }
}

impl Clone for Entry {
    fn clone(&self) -> (copy: Entry)
        ensures
            copy@ == self@,
    {
        Entry { id: self.id, snapshot: self.snapshot.clone() }
    }
}

/// The rows that `entries` stand for.
pub open spec fn rows_of(entries: Seq<Entry>) -> Seq<Row> {
    entries.map_values(|entry: Entry| entry@)
}

/// The order in which a query hands out its rows.
#[derive(Clone, Copy, Debug, PartialEq, Eq, Structural)]
pub enum Order {
    /// By capture time, the latest first.
    NewestFirst,
    /// By path; the rows of one path by capture time, the latest first.
    ByPath,
}

/// `a` was captured later than `b`; of two captures with the same time,
/// the one that was inserted later counts as the later one.
pub open spec fn newer(a: Row, b: Row) -> bool {
    lex_less(b.record.date, a.record.date) || (a.record.date == b.record.date && a.id > b.id)
}

impl Order {
    /// `a` has to stand ahead of `b`.
    pub open spec fn ahead(self, a: Row, b: Row) -> bool {
        match self {
            Order::NewestFirst => newer(a, b),
            Order::ByPath => lex_less(a.record.path, b.record.path) || (a.record.path
                == b.record.path && newer(a, b)),
        }
    }

    /// The order as a relation between rows.
    pub open spec fn relation(self) -> spec_fn(Row, Row) -> bool {
        |a: Row, b: Row| self.ahead(a, b)
    }

    /// Whether `a` has to stand ahead of `b`.
    pub fn stands_ahead(self, a: &Entry, b: &Entry) -> (ahead: bool)
        ensures
            ahead == self.ahead(a@, b@),
    {
        let a_date = chars_of(a.snapshot.date.as_str());
        let b_date = chars_of(b.snapshot.date.as_str());
        let is_newer = comes_before(b_date.as_slice(), a_date.as_slice()) || (a.snapshot.date
            == b.snapshot.date && a.id > b.id);
        match self {
            Order::NewestFirst => is_newer,
            Order::ByPath => {
                let a_path = chars_of(a.snapshot.path.as_str());
                let b_path = chars_of(b.snapshot.path.as_str());
                comes_before(a_path.as_slice(), b_path.as_slice()) || (a.snapshot.path
                    == b.snapshot.path && is_newer)
            },
        }
    }
}

/// Both orders are strict: no row stands ahead of itself or of a row that
/// stands ahead of it, and the order carries over from row to row.
pub proof fn lemma_order_is_strict(order: Order)
    ensures
        is_strict_order(order.relation()),
{
    let ahead = order.relation();
    assert forall|a: Row, b: Row| #[trigger] ahead(a, b) implies !ahead(b, a) by {
        lemma_newer_facts(a, b, a);
        if lex_less(a.record.path, b.record.path) {
            lemma_lex_asymmetric(a.record.path, b.record.path);
        }
        if lex_less(b.record.path, a.record.path) {
            lemma_lex_asymmetric(b.record.path, a.record.path);
        }
        lemma_lex_irreflexive(a.record.path);
    }
    assert forall|a: Row, b: Row, c: Row| #[trigger]
        ahead(a, b) && !#[trigger] ahead(c, b) implies ahead(a, c) by {
        lemma_newer_facts(a, b, c);
        lemma_lex_total(c.record.path, b.record.path);
        if lex_less(a.record.path, b.record.path) && lex_less(b.record.path, c.record.path) {
            lemma_lex_transitive(a.record.path, b.record.path, c.record.path);
        }
    }
}

/// `newer` is strict: it holds one way at most, and a row newer than one
/// of two is newer than the other unless that one is newer still.
proof fn lemma_newer_facts(a: Row, b: Row, c: Row)
    ensures
        newer(a, b) ==> !newer(b, a),
        newer(a, b) && !newer(c, b) ==> newer(a, c),
{
    lemma_lex_irreflexive(a.record.date);
    if lex_less(a.record.date, b.record.date) {
        lemma_lex_asymmetric(a.record.date, b.record.date);
    }
    if lex_less(b.record.date, a.record.date) {
        lemma_lex_asymmetric(b.record.date, a.record.date);
    }
    lemma_lex_total(c.record.date, b.record.date);
    if lex_less(c.record.date, b.record.date) && lex_less(b.record.date, a.record.date) {
        lemma_lex_transitive(c.record.date, b.record.date, a.record.date);
    }
}

/// Which rows a query or a deletion is about.
#[derive(Debug)]
pub enum Scope {
    /// Every row.
    All,
    /// The row with one id.
    Id(i64),
    /// The rows of one path.
    Path(String),
    /// The rows of a directory: of its own path and of all paths below it.
    Within(String),
    /// The rows of the paths below a directory.
    Below(String),
    /// The rows whose path holds a text somewhere.
    Matching(String),
    /// The rows whose fingerprint begins with a text.
    Fingerprint(String),
    /// The rows of one path whose fingerprint begins with a text.
    Version(String, String),
}

/// A scope as a value of texts and numbers.
pub enum Filter {
    All,
    Id(int),
    Path(Seq<char>),
    Within(Seq<char>),
    Below(Seq<char>),
    Matching(Seq<char>),
    Fingerprint(Seq<char>),
    Version(Seq<char>, Seq<char>),
}

impl Filter {
    /// The filter lets `row` through.
    pub open spec fn admits(self, row: Row) -> bool {
        match self {
            Filter::All => true,
            Filter::Id(id) => row.id == id,
            Filter::Path(path) => row.record.path == path,
            Filter::Within(dir) => is_within(row.record.path, dir),
            Filter::Below(dir) => is_below(row.record.path, dir),
            Filter::Matching(text) => occurs_in(row.record.path, text),
            Filter::Fingerprint(prefix) => prefix.is_prefix_of(row.record.checksum),
            Filter::Version(path, prefix) => row.record.path == path && prefix.is_prefix_of(
                row.record.checksum,
            ),
        }
    }
}

impl View for Scope {
    type V = Filter;

    open spec fn view(&self) -> Filter {
        match self {
            Scope::All => Filter::All,
            Scope::Id(id) => Filter::Id(*id as int),
            Scope::Path(path) => Filter::Path(path@),
            Scope::Within(dir) => Filter::Within(dir@),
            Scope::Below(dir) => Filter::Below(dir@),
            Scope::Matching(text) => Filter::Matching(text@),
            Scope::Fingerprint(prefix) => Filter::Fingerprint(prefix@),
            Scope::Version(path, prefix) => Filter::Version(path@, prefix@),
        }
    }
}

impl Scope {
    /// Whether the scope takes in `entry`.
    pub fn holds(&self, entry: &Entry) -> (held: bool)
        ensures
            held == self@.admits(entry@),
    {
        let snapshot = &entry.snapshot;
        match self {
            Scope::All => true,
            Scope::Id(id) => entry.id == *id,
            Scope::Path(path) => snapshot.path == *path,
            Scope::Within(dir) => {
                let path = chars_of(snapshot.path.as_str());
                let dir_chars = chars_of(dir.as_str());
                snapshot.path == *dir || lies_below(path.as_slice(), dir_chars.as_slice())
            },
            Scope::Below(dir) => {
                let path = chars_of(snapshot.path.as_str());
                let dir_chars = chars_of(dir.as_str());
                lies_below(path.as_slice(), dir_chars.as_slice())
            },
            Scope::Matching(text) => {
                let path = chars_of(snapshot.path.as_str());
                let wanted = chars_of(text.as_str());
                contains(path.as_slice(), wanted.as_slice())
            },
            Scope::Fingerprint(prefix) => {
                let checksum = chars_of(snapshot.checksum.as_str());
                let wanted = chars_of(prefix.as_str());
                starts_with(checksum.as_slice(), wanted.as_slice())
            },
            Scope::Version(path, prefix) => {
                let checksum = chars_of(snapshot.checksum.as_str());
                let wanted = chars_of(prefix.as_str());
                snapshot.path == *path && starts_with(checksum.as_slice(), wanted.as_slice())
            },
        }
    }
}

/// The rows that `filter` lets through, in the order of the table.
pub open spec fn admitted(rows: Seq<Row>, filter: Filter) -> Seq<Row>
    decreases rows.len(),
{
    if rows.len() == 0 {
        Seq::empty()
    } else if filter.admits(rows.last()) {
        admitted(rows.drop_last(), filter).push(rows.last())
    } else {
        admitted(rows.drop_last(), filter)
    }
}

/// The rows that `filter` holds back, in the order of the table: what is
/// left of the table when the rows that the filter lets through are deleted.
pub open spec fn rejected(rows: Seq<Row>, filter: Filter) -> Seq<Row>
    decreases rows.len(),
{
    if rows.len() == 0 {
        Seq::empty()
    } else if filter.admits(rows.last()) {
        rejected(rows.drop_last(), filter)
    } else {
        rejected(rows.drop_last(), filter).push(rows.last())
    }
}

/// The answer to a query: the rows that `filter` lets through, each placed
/// by `order`.
pub open spec fn selected(rows: Seq<Row>, filter: Filter, order: Order) -> Seq<Row>
    decreases rows.len(),
{
    if rows.len() == 0 {
        Seq::empty()
    } else if filter.admits(rows.last()) {
        placed(selected(rows.drop_last(), filter, order), rows.last(), order.relation())
    } else {
        selected(rows.drop_last(), filter, order)
    }
}

/// The latest row of `path`, if it has one.
pub open spec fn latest(rows: Seq<Row>, path: Seq<char>) -> Option<Row> {
    let found = selected(rows, Filter::Path(path), Order::NewestFirst);
    if found.len() > 0 {
        Some(found[0])
    } else {
        None
    }
}

/// `record` is what the index holds as the latest state of its path: the
/// latest row of the path has its fingerprint.
pub open spec fn is_current(rows: Seq<Row>, record: Record) -> bool {
    match latest(rows, record.path) {
        Some(row) => row.record.checksum == record.checksum,
        None => false,
    }
}

/// The ids grow along the table.
pub open spec fn ids_ascend(rows: Seq<Row>) -> bool {
    forall|i: int, j: int| 0 <= i < j < rows.len() ==> rows[i].id < rows[j].id
}

/// A query answers with the rows that its filter lets through: each of
/// them once, and no other.
pub proof fn lemma_selected_members(rows: Seq<Row>, filter: Filter, order: Order)
    ensures
        selected(rows, filter, order).to_multiset() == admitted(rows, filter).to_multiset(),
        selected(rows, filter, order).len() == admitted(rows, filter).len(),
        forall|row: Row|
            #![trigger selected(rows, filter, order).contains(row)]
            #![trigger rows.contains(row)]
            selected(rows, filter, order).contains(row) <==> rows.contains(row) && filter.admits(
                row,
            ),
    decreases rows.len(),
{
    broadcast use vstd::seq_lib::group_to_multiset_ensures;

    if rows.len() > 0 {
        lemma_selected_members(rows.drop_last(), filter, order);
        if filter.admits(rows.last()) {
            lemma_placed_members(
                selected(rows.drop_last(), filter, order),
                rows.last(),
                order.relation(),
            );
        }
    }
    lemma_admitted_rejected(rows, filter);
    assert forall|row: Row|
        #![trigger selected(rows, filter, order).contains(row)]
        #![trigger rows.contains(row)]
        selected(rows, filter, order).contains(row) <==> rows.contains(row) && filter.admits(
            row,
        ) by {
        assert(selected(rows, filter, order).contains(row) <==> selected(
            rows,
            filter,
            order,
        ).to_multiset().count(row) > 0);
        assert(admitted(rows, filter).contains(row) <==> admitted(
            rows,
            filter,
        ).to_multiset().count(row) > 0);
    }
}

/// A query answers in its order: no row of the answer has to stand ahead
/// of one that comes before it.
pub proof fn lemma_selected_in_order(rows: Seq<Row>, filter: Filter, order: Order)
    ensures
        in_order(selected(rows, filter, order), order.relation()),
    decreases rows.len(),
{
    if rows.len() > 0 {
        lemma_selected_in_order(rows.drop_last(), filter, order);
        if filter.admits(rows.last()) {
            lemma_order_is_strict(order);
            lemma_placed_in_order(
                selected(rows.drop_last(), filter, order),
                rows.last(),
                order.relation(),
            );
        }
    }
}

/// The rows that a filter lets through are rows of the table that it
/// admits, and the rows that it holds back are those that it does not.
pub proof fn lemma_admitted_rejected(rows: Seq<Row>, filter: Filter)
    ensures
        forall|row: Row|
            #![trigger admitted(rows, filter).contains(row)]
            #![trigger rows.contains(row)]
            admitted(rows, filter).contains(row) <==> rows.contains(row) && filter.admits(row),
        forall|row: Row|
            #![trigger rejected(rows, filter).contains(row)]
            #![trigger rows.contains(row)]
            rejected(rows, filter).contains(row) <==> rows.contains(row) && !filter.admits(row),
        admitted(rows, filter).len() + rejected(rows, filter).len() == rows.len(),
    decreases rows.len(),
{
    if rows.len() > 0 {
        let front = rows.drop_last();
        let last = rows.last();
        lemma_admitted_rejected(front, filter);
        assert(rows =~= front.push(last));
        assert forall|row: Row|
            #![trigger admitted(rows, filter).contains(row)]
            #![trigger rows.contains(row)]
            admitted(rows, filter).contains(row) <==> rows.contains(row) && filter.admits(
                row,
            ) by {
            lemma_push_contains(front, last, row);
            lemma_push_contains(admitted(front, filter), last, row);
        }
        assert forall|row: Row|
            #![trigger rejected(rows, filter).contains(row)]
            #![trigger rows.contains(row)]
            rejected(rows, filter).contains(row) <==> rows.contains(row) && !filter.admits(
                row,
            ) by {
            lemma_push_contains(front, last, row);
            lemma_push_contains(rejected(front, filter), last, row);
        }
    }
}

/// What a sequence holds once an item is pushed: the item, and what it
/// held.
pub proof fn lemma_push_contains<T>(items: Seq<T>, item: T, wanted: T)
    ensures
        items.push(item).contains(wanted) <==> items.contains(wanted) || wanted == item,
{
    let pushed = items.push(item);
    if items.contains(wanted) {
        let k = choose|k: int| 0 <= k < items.len() && items[k] == wanted;
        assert(pushed[k] == wanted);
    }
    if wanted == item {
        assert(pushed[items.len() as int] == wanted);
    }
    if pushed.contains(wanted) {
        let k = choose|k: int| 0 <= k < pushed.len() && pushed[k] == wanted;
        if k < items.len() {
            assert(items[k] == wanted);
        }
    }
}

/// Deleting rows leaves the ids of the others growing along the table.
pub proof fn lemma_rejected_ascend(rows: Seq<Row>, filter: Filter)
    requires
        ids_ascend(rows),
    ensures
        ids_ascend(rejected(rows, filter)),
    decreases rows.len(),
{
    if rows.len() > 0 {
        let front = rows.drop_last();
        let last = rows.last();
        assert(ids_ascend(front)) by {
            assert forall|i: int, j: int| 0 <= i < j < front.len() implies front[i].id
                < front[j].id by {
                assert(front[i] == rows[i] && front[j] == rows[j]);
            }
        }
        lemma_rejected_ascend(front, filter);
        lemma_admitted_rejected(front, filter);
        let kept = rejected(front, filter);
        if !filter.admits(last) {
            let out = kept.push(last);
            assert forall|i: int, j: int| 0 <= i < j < out.len() implies out[i].id
                < out[j].id by {
                if j == kept.len() {
                    assert(kept.contains(kept[i]));
                    assert(front.contains(kept[i]));
                    let k = choose|k: int| 0 <= k < front.len() && front[k] == kept[i];
                    assert(rows[k] == kept[i]);
                    assert(rows[k].id < rows[rows.len() - 1].id);
                }
            }
        }
    }
}

/// A capture that is not older than the other captures of its path comes
/// first among them: the versions of the path are the new record, then the
/// versions that there were, in their order and unchanged.
pub proof fn lemma_new_capture_comes_first(rows: Seq<Row>, id: int, record: Record)
    requires
        forall|i: int| 0 <= i < rows.len() ==> (#[trigger] rows[i]).id < id,
        forall|i: int|
            0 <= i < rows.len() && (#[trigger] rows[i]).record.path == record.path ==> !lex_less(
                record.date,
                rows[i].record.date,
            ),
    ensures
        selected(rows.push(Row { id, record }), Filter::Path(record.path), Order::NewestFirst)
            == seq![Row { id, record }] + selected(
            rows,
            Filter::Path(record.path),
            Order::NewestFirst,
        ),
        latest(rows.push(Row { id, record }), record.path) == Some(Row { id, record }),
{
    let row = Row { id, record };
    let filter = Filter::Path(record.path);
    let before = selected(rows, filter, Order::NewestFirst);
    let ahead = Order::NewestFirst.relation();
    assert(rows.push(row).drop_last() =~= rows);
    lemma_selected_members(rows, filter, Order::NewestFirst);
    assert forall|j: int| 0 <= j < before.len() implies ahead(row, before[j]) by {
        assert(before.contains(before[j]));
        assert(rows.contains(before[j]) && filter.admits(before[j]));
        let i = choose|i: int| 0 <= i < rows.len() && rows[i] == before[j];
        lemma_lex_total(record.date, rows[i].record.date);
    }
    lemma_placed_at(before, row, ahead, 0);
    assert(before.insert(0, row) =~= seq![row] + before);
}

/// After a capture that is not older than the other captures of its path,
/// the index holds that capture as the latest state of the path. So a
/// second capture of the same path with the same fingerprint finds nothing
/// new and adds no row.
pub proof fn lemma_recapture_finds_nothing_new(
    rows: Seq<Row>,
    id: int,
    record: Record,
    again: Record,
)
    requires
        forall|i: int| 0 <= i < rows.len() ==> (#[trigger] rows[i]).id < id,
        forall|i: int|
            0 <= i < rows.len() && (#[trigger] rows[i]).record.path == record.path ==> !lex_less(
                record.date,
                rows[i].record.date,
            ),
        again.path == record.path,
        again.checksum == record.checksum,
    ensures
        latest(rows.push(Row { id, record }), record.path) == Some(Row { id, record }),
        is_current(rows.push(Row { id, record }), again),
{
    lemma_new_capture_comes_first(rows, id, record);
}

/// Places `entry` in `out` by `order`.
fn place(out: &mut Vec<Entry>, entry: Entry, order: Order)
    ensures
        rows_of(final(out)@) == placed(rows_of(old(out)@), entry@, order.relation()),
{
    let mut at: usize = out.len();
    while at > 0 && order.stands_ahead(&entry, &out[at - 1])
        invariant
            at <= out.len(),
            out@ == old(out)@,
            forall|j: int| at <= j < out.len() ==> order.ahead(entry@, #[trigger] out@[j]@),
        decreases at,
    {
        at -= 1;
    }
    proof {
        let sorted = rows_of(out@);
        assert forall|j: int| at <= j < sorted.len() implies (order.relation())(
            entry@,
            sorted[j],
        ) by {
            assert(order.ahead(entry@, out@[j]@));
        }
        lemma_placed_at(sorted, entry@, order.relation(), at as int);
    }
    let ghost row = entry@;
    out.insert(at, entry);
    assert(rows_of(out@) =~= rows_of(old(out)@).insert(at as int, row));
}

/// The metadata index.
pub struct Database {
    entries: Vec<Entry>,
    exclusions: Vec<(String, String)>,
    next_id: i64,
}

/// What a listing shows of a row: path, capture time, size, fingerprint.
pub open spec fn line_of(row: Row) -> (Seq<char>, Seq<char>, int, Seq<char>) {
    (row.record.path, row.record.date, row.record.size, row.record.checksum)
}

/// What a listing with ids shows of a row.
pub open spec fn line_with_id_of(row: Row) -> (int, Seq<char>, Seq<char>, int, Seq<char>) {
    (row.id, row.record.path, row.record.date, row.record.size, row.record.checksum)
}

/// The lines of a listing as values of texts and numbers.
pub open spec fn plain(lines: Seq<(String, String, i64, String)>) -> Seq<
    (Seq<char>, Seq<char>, int, Seq<char>),
> {
    lines.map_values(
        |line: (String, String, i64, String)| (line.0@, line.1@, line.2 as int, line.3@),
    )
}

/// The lines of a listing with ids as values of texts and numbers.
pub open spec fn plain_with_id(lines: Seq<(i64, String, String, i64, String)>) -> Seq<
    (int, Seq<char>, Seq<char>, int, Seq<char>),
> {
    lines.map_values(
        |line: (i64, String, String, i64, String)|
            (line.0 as int, line.1@, line.2@, line.3 as int, line.4@),
    )
}

/// The records of `snapshots`.
pub open spec fn records_of(snapshots: Seq<Snapshot>) -> Seq<Record> {
    snapshots.map_values(|snapshot: Snapshot| snapshot@)
}

/// The lines of `rows`, each once, in the order in which they first
/// occur: rows that show the same path, time, size and fingerprint make
/// one line.
pub open spec fn distinct_lines(rows: Seq<Row>) -> Seq<(Seq<char>, Seq<char>, int, Seq<char>)>
    decreases rows.len(),
{
    if rows.len() == 0 {
        Seq::empty()
    } else {
        let before = distinct_lines(rows.drop_last());
        if before.contains(line_of(rows.last())) {
            before
        } else {
            before.push(line_of(rows.last()))
        }
    }
}

fn holds_line(lines: &Vec<(String, String, i64, String)>, snapshot: &Snapshot) -> (held: bool)
    ensures
        held == plain(lines@).contains(
            (snapshot@.path, snapshot@.date, snapshot@.size, snapshot@.checksum),
        ),
{
    let mut i: usize = 0;
    while i < lines.len()
        invariant
            i <= lines.len(),
            forall|k: int|
                0 <= k < i ==> plain(lines@)[k] != (
                    snapshot@.path,
                    snapshot@.date,
                    snapshot@.size,
                    snapshot@.checksum,
                ),
        decreases lines.len() - i,
    {
        let line = &lines[i];
        if line.0 == snapshot.path && line.1 == snapshot.date && line.2 == snapshot.size && line.3
            == snapshot.checksum {
            assert(plain(lines@)[i as int] == (
                snapshot@.path,
                snapshot@.date,
                snapshot@.size,
                snapshot@.checksum,
            ));
            return true;
        }
        i += 1;
    }
    false
}

fn lines(entries: &Vec<Entry>) -> (out: Vec<(String, String, i64, String)>)
    ensures
        plain(out@) == distinct_lines(rows_of(entries@)),
{
    let mut out: Vec<(String, String, i64, String)> = Vec::new();
    let mut i: usize = 0;
    let ghost rows = rows_of(entries@);
    assert(plain(out@) =~= Seq::<(Seq<char>, Seq<char>, int, Seq<char>)>::empty());
    while i < entries.len()
        invariant
            i <= entries.len(),
            rows == rows_of(entries@),
            plain(out@) == distinct_lines(rows.take(i as int)),
        decreases entries.len() - i,
    {
        assert(rows.take(i + 1).drop_last() == rows.take(i as int));
        assert(rows.take(i + 1).last() == entries@[i as int]@);
        let snapshot = &entries[i].snapshot;
        if !holds_line(&out, snapshot) {
            let ghost before = plain(out@);
            out.push(
                (
                    snapshot.path.clone(),
                    snapshot.date.clone(),
                    snapshot.size,
                    snapshot.checksum.clone(),
                ),
            );
            assert(plain(out@) =~= before.push(line_of(entries@[i as int]@)));
        }
        i += 1;
    }
    assert(rows.take(entries.len() as int) == rows);
    out
}

fn lines_with_id(entries: &Vec<Entry>) -> (out: Vec<(i64, String, String, i64, String)>)
    ensures
        plain_with_id(out@) == rows_of(entries@).map_values(|row: Row| line_with_id_of(row)),
{
    let mut out: Vec<(i64, String, String, i64, String)> = Vec::new();
    let mut i: usize = 0;
    while i < entries.len()
        invariant
            i <= entries.len(),
            out@.len() == i,
            forall|k: int|
                0 <= k < i ==> plain_with_id(out@)[k] == line_with_id_of(#[trigger] entries@[k]@),
        decreases entries.len() - i,
    {
        let snapshot = &entries[i].snapshot;
        out.push(
            (
                entries[i].id,
                snapshot.path.clone(),
                snapshot.date.clone(),
                snapshot.size,
                snapshot.checksum.clone(),
            ),
        );
        i += 1;
    }
    assert(plain_with_id(out@) =~= rows_of(entries@).map_values(|row: Row| line_with_id_of(row)));
    out
}

fn snapshots_of(entries: &Vec<Entry>) -> (out: Vec<Snapshot>)
    ensures
        records_of(out@) == rows_of(entries@).map_values(|row: Row| row.record),
{
    let mut out: Vec<Snapshot> = Vec::new();
    let mut i: usize = 0;
    while i < entries.len()
        invariant
            i <= entries.len(),
            out@.len() == i,
            forall|k: int| 0 <= k < i ==> (#[trigger] out@[k])@ == entries@[k]@.record,
        decreases entries.len() - i,
    {
        out.push(entries[i].snapshot.clone());
        i += 1;
    }
    assert(records_of(out@) =~= rows_of(entries@).map_values(|row: Row| row.record));
    out
}

impl Database {
    /// The rows of the table, in the order in which they were inserted.
    pub closed spec fn rows(&self) -> Seq<Row> {
        rows_of(self.entries@)
    }

    /// The exclusion rules, in the order in which they were added.
    pub closed spec fn rules(&self) -> Seq<(String, String)> {
        self.exclusions@
    }

    /// The id that the next inserted row gets.
    pub closed spec fn next_id(&self) -> int {
        self.next_id as int
    }

    /// The ids are positive, grow along the table, and lie below the next
    /// one to be given.
    pub open spec fn wf(&self) -> bool {
        &&& ids_ascend(self.rows())
        &&& 1 <= self.next_id() <= i64::MAX
        &&& forall|i: int|
            0 <= i < self.rows().len() ==> 0 < (#[trigger] self.rows()[i]).id < self.next_id()
    }

    /// An index without rows or rules.
    pub fn new() -> (db: Database)
        ensures
            db.wf(),
            db.rows() == Seq::<Row>::empty(),
            db.rules() == Seq::<(String, String)>::empty(),
            db.next_id() == 1,
    {
        let db = Database { entries: Vec::new(), exclusions: Vec::new(), next_id: 1 };
        assert(db.rows() =~= Seq::<Row>::empty());
        db
    }

    /// Puts back a row that was stored under `id` before. Rows come back
    /// in the order of their ids: one whose id is not beyond all that the
    /// index has seen is turned away.
    pub fn load_row(&mut self, id: i64, snapshot: Snapshot) -> (taken: bool)
        requires
            old(self).wf(),
        ensures
            final(self).wf(),
            final(self).rules() == old(self).rules(),
            taken == (old(self).next_id() <= id < i64::MAX),
            taken ==> final(self).rows() == old(self).rows().push(
                Row { id: id as int, record: snapshot@ },
            ) && final(self).next_id() == id + 1,
            !taken ==> final(self).rows() == old(self).rows() && final(self).next_id() == old(
                self,
            ).next_id(),
    {
        if id < self.next_id || id == i64::MAX {
            return false;
        }
        let ghost row = Row { id: id as int, record: snapshot@ };
        self.entries.push(Entry { id, snapshot });
        self.next_id = id + 1;
        assert(self.rows() =~= old(self).rows().push(row));
        true
    }

    /// The answer to a query.
    pub fn select(&self, scope: &Scope, order: Order) -> (found: Vec<Entry>)
        ensures
            rows_of(found@) == selected(self.rows(), scope@, order),
    {
        let mut found: Vec<Entry> = Vec::new();
        let mut i: usize = 0;
        assert(rows_of(found@) =~= Seq::<Row>::empty());
        while i < self.entries.len()
            invariant
                i <= self.entries.len(),
                rows_of(found@) == selected(self.rows().take(i as int), scope@, order),
            decreases self.entries.len() - i,
        {
            assert(self.rows().take(i + 1).drop_last() == self.rows().take(i as int));
            assert(self.rows().take(i + 1).last() == self.entries@[i as int]@);
            if scope.holds(&self.entries[i]) {
                place(&mut found, self.entries[i].clone(), order);
            }
            i += 1;
        }
        assert(self.rows().take(self.entries.len() as int) == self.rows());
        found
    }

    /// Records `snapshot`, unless it is what the index already holds as the
    /// latest state of its path. Returns the id of the new row, or `None`
    /// where there was nothing new to record.
    ///
    /// Fails only when every id has been given out.
    pub fn save_snapshot(&mut self, snapshot: &Snapshot) -> (outcome: Result<
        Option<i64>,
        EngineError,
    >)
        requires
            old(self).wf(),
        ensures
            final(self).wf(),
            final(self).rules() == old(self).rules(),
            is_current(old(self).rows(), snapshot@) ==> outcome matches Ok(None),
            !is_current(old(self).rows(), snapshot@) && old(self).next_id() < i64::MAX
                ==> outcome matches Ok(Some(_)),
            !is_current(old(self).rows(), snapshot@) && old(self).next_id() == i64::MAX
                ==> outcome matches Err(EngineError::Io(_)),
            match outcome {
                Ok(Some(id)) => {
                    &&& id == old(self).next_id()
                    &&& final(self).next_id() == id + 1
                    &&& final(self).rows() == old(self).rows().push(
                        Row { id: id as int, record: snapshot@ },
                    )
                },
                _ => final(self).rows() == old(self).rows() && final(self).next_id() == old(
                    self,
                ).next_id(),
            },
    {
        let found = self.select(&Scope::Path(snapshot.path.clone()), Order::NewestFirst);
        if found.len() > 0 && found[0].snapshot.checksum == snapshot.checksum {
            assert(rows_of(found@)[0] == found@[0]@);
            return Ok(None);
        }
        proof {
            if found.len() > 0 {
                assert(rows_of(found@)[0] == found@[0]@);
            }
        }
        if self.next_id == i64::MAX {
            return Err(EngineError::Io(String::from_str("the index has given out every id")));
        }
        let id = self.next_id;
        let ghost row = Row { id: id as int, record: snapshot@ };
        self.entries.push(Entry { id, snapshot: snapshot.clone() });
        self.next_id = id + 1;
        assert(self.rows() =~= old(self).rows().push(row));
        Ok(Some(id))
    }

    /// Deletes the rows that `scope` takes in, and says how many they were.
    fn delete(&mut self, scope: &Scope) -> (count: usize)
        requires
            old(self).wf(),
        ensures
            final(self).wf(),
            final(self).rules() == old(self).rules(),
            final(self).next_id() == old(self).next_id(),
            final(self).rows() == rejected(old(self).rows(), scope@),
            count == admitted(old(self).rows(), scope@).len(),
    {
        let mut kept: Vec<Entry> = Vec::new();
        let mut count: usize = 0;
        let mut i: usize = 0;
        assert(rows_of(kept@) =~= Seq::<Row>::empty());
        while i < self.entries.len()
            invariant
                i <= self.entries.len(),
                count <= i,
                rows_of(kept@) == rejected(self.rows().take(i as int), scope@),
                count == admitted(self.rows().take(i as int), scope@).len(),
            decreases self.entries.len() - i,
        {
            assert(self.rows().take(i + 1).drop_last() == self.rows().take(i as int));
            assert(self.rows().take(i + 1).last() == self.entries@[i as int]@);
            if scope.holds(&self.entries[i]) {
                count += 1;
            } else {
                let ghost before = rows_of(kept@);
                kept.push(self.entries[i].clone());
                assert(rows_of(kept@) =~= before.push(self.entries@[i as int]@));
            }
            i += 1;
        }
        assert(self.rows().take(self.entries.len() as int) == self.rows());
        proof {
            lemma_rejected_ascend(self.rows(), scope@);
            lemma_admitted_rejected(self.rows(), scope@);
            let left = rejected(self.rows(), scope@);
            assert forall|k: int| 0 <= k < left.len() implies 0 < (#[trigger] left[k]).id
                < self.next_id() by {
                assert(left.contains(left[k]));
                assert(self.rows().contains(left[k]));
            }
        }
        self.entries = kept;
        count
    }
}

/// Which version of a path is meant.
#[derive(Debug)]
pub enum Selector {
    /// The latest capture.
    Latest,
    /// The capture whose fingerprint begins with a text.
    Prefix(String),
}

/// The fingerprints of `rows`, each once, in the order in which they
/// first occur.
pub open spec fn distinct_fingerprints(rows: Seq<Row>) -> Seq<Seq<char>>
    decreases rows.len(),
{
    if rows.len() == 0 {
        Seq::empty()
    } else {
        let before = distinct_fingerprints(rows.drop_last());
        if before.contains(rows.last().record.checksum) {
            before
        } else {
            before.push(rows.last().record.checksum)
        }
    }
}

/// What a choice among rows comes to.
pub enum Resolution {
    /// The rows are captures of one content; the first of them stands for
    /// it.
    Found(Row),
    /// There are no rows.
    Absent,
    /// The rows are captures of several contents, which have these
    /// fingerprints.
    Ambiguous(Seq<Seq<char>>),
}

/// What the choice among `found` comes to.
pub open spec fn resolved(found: Seq<Row>) -> Resolution {
    if found.len() == 0 {
        Resolution::Absent
    } else if distinct_fingerprints(found).len() == 1 {
        Resolution::Found(found[0])
    } else {
        Resolution::Ambiguous(distinct_fingerprints(found))
    }
}

/// `outcome` is what `resolution` asks for: the record found, or the error
/// that says why there is none.
pub open spec fn answers(outcome: Result<Snapshot, EngineError>, resolution: Resolution) -> bool {
    match resolution {
        Resolution::Found(row) => outcome matches Ok(snapshot) && snapshot@ == row.record,
        Resolution::Absent => outcome matches Err(EngineError::NotFound),
        Resolution::Ambiguous(fingerprints) => outcome matches Err(
            EngineError::AmbiguousSelector(candidates),
        ) && texts(candidates@) == fingerprints,
    }
}

/// The distinct fingerprints of some rows are the fingerprints of those
/// rows, and none of them stands twice.
pub proof fn lemma_distinct_fingerprints(rows: Seq<Row>)
    ensures
        forall|text: Seq<char>|
            distinct_fingerprints(rows).contains(text) <==> exists|i: int|
                0 <= i < rows.len() && (#[trigger] rows[i]).record.checksum == text,
        distinct_fingerprints(rows).no_duplicates(),
        rows.len() > 0 ==> distinct_fingerprints(rows).len() > 0,
    decreases rows.len(),
{
    if rows.len() > 0 {
        let front = rows.drop_last();
        let last = rows.last().record.checksum;
        let before = distinct_fingerprints(front);
        lemma_distinct_fingerprints(front);
        assert forall|text: Seq<char>|
            distinct_fingerprints(rows).contains(text) <==> exists|i: int|
                0 <= i < rows.len() && (#[trigger] rows[i]).record.checksum == text by {
            lemma_push_contains(before, last, text);
            if before.contains(text) {
                let i = choose|i: int|
                    0 <= i < front.len() && (#[trigger] front[i]).record.checksum == text;
                assert(rows[i].record.checksum == text);
            }
            if text == last {
                assert(rows[rows.len() - 1].record.checksum == text);
            }
            if exists|i: int| 0 <= i < rows.len() && (#[trigger] rows[i]).record.checksum == text {
                let i = choose|i: int|
                    0 <= i < rows.len() && (#[trigger] rows[i]).record.checksum == text;
                if i < front.len() {
                    assert(front[i].record.checksum == text);
                }
            }
        }
    } else {
        assert forall|text: Seq<char>| !distinct_fingerprints(rows).contains(text) by {}
    }
}

/// A choice is made only where nothing is left to choose: the rows found
/// all have the fingerprint of the one that is handed out. Where two of
/// them differ, the choice is refused, and both fingerprints are among
/// those named.
pub proof fn lemma_resolution_is_unambiguous(found: Seq<Row>)
    ensures
        match resolved(found) {
            Resolution::Found(row) => forall|i: int|
                0 <= i < found.len() ==> (#[trigger] found[i]).record.checksum
                    == row.record.checksum,
            Resolution::Absent => found.len() == 0,
            Resolution::Ambiguous(fingerprints) => {
                &&& fingerprints.len() >= 2
                &&& forall|i: int|
                    0 <= i < found.len() ==> fingerprints.contains(
                        (#[trigger] found[i]).record.checksum,
                    )
                &&& exists|i: int, j: int|
                    0 <= i < found.len() && 0 <= j < found.len()
                        && (#[trigger] found[i]).record.checksum
                        != (#[trigger] found[j]).record.checksum
            },
        },
{
    lemma_distinct_fingerprints(found);
    let distinct = distinct_fingerprints(found);
    if found.len() > 0 {
        if distinct.len() == 1 {
            assert forall|i: int| 0 <= i < found.len() implies (#[trigger] found[i]).record.checksum
                == found[0].record.checksum by {
                assert(distinct.contains(found[i].record.checksum));
                assert(distinct.contains(found[0].record.checksum));
                let a = choose|a: int|
                    0 <= a < distinct.len() && distinct[a] == found[i].record.checksum;
                let b = choose|b: int|
                    0 <= b < distinct.len() && distinct[b] == found[0].record.checksum;
                assert(a == 0 && b == 0);
            }
        } else {
            assert(distinct[0] != distinct[1]);
            assert(distinct.contains(distinct[0]));
            assert(distinct.contains(distinct[1]));
            let i = choose|i: int|
                0 <= i < found.len() && (#[trigger] found[i]).record.checksum == distinct[0];
            let j = choose|j: int|
                0 <= j < found.len() && (#[trigger] found[j]).record.checksum == distinct[1];
            assert(found[i].record.checksum != found[j].record.checksum);
        }
    }
}

/// Chooses among `found`, the rows that a selector fits, newest first.
pub fn resolve(found: &Vec<Entry>) -> (outcome: Result<Snapshot, EngineError>)
    ensures
        answers(outcome, resolved(rows_of(found@))),
{
    if found.len() == 0 {
        return Err(EngineError::NotFound);
    }
    let mut seen: Vec<String> = Vec::new();
    let mut i: usize = 0;
    assert(texts(seen@) =~= Seq::<Seq<char>>::empty());
    while i < found.len()
        invariant
            i <= found.len(),
            texts(seen@) == distinct_fingerprints(rows_of(found@).take(i as int)),
        decreases found.len() - i,
    {
        assert(rows_of(found@).take(i + 1).drop_last() == rows_of(found@).take(i as int));
        assert(rows_of(found@).take(i + 1).last() == found@[i as int]@);
        if !holds_text(&seen, found[i].snapshot.checksum.as_str()) {
            let ghost before = texts(seen@);
            seen.push(found[i].snapshot.checksum.clone());
            assert(texts(seen@) =~= before.push(found@[i as int]@.record.checksum));
        }
        i += 1;
    }
    assert(rows_of(found@).take(found.len() as int) == rows_of(found@));
    if seen.len() == 1 {
        assert(rows_of(found@)[0] == found@[0]@);
        Ok(found[0].snapshot.clone())
    } else {
        Err(EngineError::AmbiguousSelector(seen))
    }
}

/// The paths under which the contents of `rows` are kept, each once, in
/// the order in which they first occur.
pub open spec fn content_paths(rows: Seq<Row>) -> Seq<Seq<char>>
    decreases rows.len(),
{
    if rows.len() == 0 {
        Seq::empty()
    } else {
        let before = content_paths(rows.drop_last());
        if before.contains(rows.last().record.content_path) {
            before
        } else {
            before.push(rows.last().record.content_path)
        }
    }
}

/// The content paths of some rows are the paths that those rows refer to.
pub proof fn lemma_content_paths(rows: Seq<Row>)
    ensures
        forall|path: Seq<char>|
            content_paths(rows).contains(path) <==> exists|i: int|
                0 <= i < rows.len() && (#[trigger] rows[i]).record.content_path == path,
    decreases rows.len(),
{
    if rows.len() > 0 {
        let front = rows.drop_last();
        let last = rows.last().record.content_path;
        let before = content_paths(front);
        lemma_content_paths(front);
        assert forall|path: Seq<char>|
            content_paths(rows).contains(path) <==> exists|i: int|
                0 <= i < rows.len() && (#[trigger] rows[i]).record.content_path == path by {
            lemma_push_contains(before, last, path);
            if before.contains(path) {
                let i = choose|i: int|
                    0 <= i < front.len() && (#[trigger] front[i]).record.content_path == path;
                assert(rows[i].record.content_path == path);
            }
            if path == last {
                assert(rows[rows.len() - 1].record.content_path == path);
            }
            if exists|i: int|
                0 <= i < rows.len() && (#[trigger] rows[i]).record.content_path == path {
                let i = choose|i: int|
                    0 <= i < rows.len() && (#[trigger] rows[i]).record.content_path == path;
                if i < front.len() {
                    assert(front[i].record.content_path == path);
                }
            }
        }
    }
}

/// One rule has to stand ahead of another: its kind comes first in the
/// order of dictionaries, or the kinds are the same and its pattern does.
pub open spec fn rule_order() -> spec_fn((String, String), (String, String)) -> bool {
    |a: (String, String), b: (String, String)|
        lex_less(a.1@, b.1@) || (a.1@ == b.1@ && lex_less(a.0@, b.0@))
}

/// `rules` by kind and, within a kind, by pattern.
pub open spec fn arranged(rules: Seq<(String, String)>) -> Seq<(String, String)>
    decreases rules.len(),
{
    if rules.len() == 0 {
        Seq::empty()
    } else {
        placed(arranged(rules.drop_last()), rules.last(), rule_order())
    }
}

/// `rules` without those whose pattern is `pattern`.
pub open spec fn without_pattern(rules: Seq<(String, String)>, pattern: Seq<char>) -> Seq<
    (String, String),
>
    decreases rules.len(),
{
    if rules.len() == 0 {
        Seq::empty()
    } else if rules.last().0@ == pattern {
        without_pattern(rules.drop_last(), pattern)
    } else {
        without_pattern(rules.drop_last(), pattern).push(rules.last())
    }
}

/// The order of rules is strict.
pub proof fn lemma_rule_order_is_strict()
    ensures
        is_strict_order(rule_order()),
{
    let ahead = rule_order();
    assert forall|a: (String, String), b: (String, String)| #[trigger]
        ahead(a, b) implies !ahead(b, a) by {
        lemma_lex_irreflexive(a.1@);
        lemma_lex_irreflexive(a.0@);
        if lex_less(a.1@, b.1@) {
            lemma_lex_asymmetric(a.1@, b.1@);
        }
        if lex_less(b.1@, a.1@) {
            lemma_lex_asymmetric(b.1@, a.1@);
        }
        if lex_less(a.0@, b.0@) {
            lemma_lex_asymmetric(a.0@, b.0@);
        }
    }
    assert forall|a: (String, String), b: (String, String), c: (String, String)| #[trigger]
        ahead(a, b) && !#[trigger] ahead(c, b) implies ahead(a, c) by {
        lemma_lex_total(c.1@, b.1@);
        lemma_lex_total(c.0@, b.0@);
        if lex_less(a.1@, b.1@) && lex_less(b.1@, c.1@) {
            lemma_lex_transitive(a.1@, b.1@, c.1@);
        }
        if lex_less(a.0@, b.0@) && lex_less(b.0@, c.0@) {
            lemma_lex_transitive(a.0@, b.0@, c.0@);
        }
    }
}

/// The rules as listed are the rules as added, each once, by kind and
/// pattern.
pub proof fn lemma_arranged(rules: Seq<(String, String)>)
    ensures
        arranged(rules).to_multiset() == rules.to_multiset(),
        arranged(rules).len() == rules.len(),
        in_order(arranged(rules), rule_order()),
    decreases rules.len(),
{
    broadcast use vstd::seq_lib::group_to_multiset_ensures;

    if rules.len() > 0 {
        let front = rules.drop_last();
        lemma_arranged(front);
        lemma_rule_order_is_strict();
        lemma_placed_members(arranged(front), rules.last(), rule_order());
        lemma_placed_in_order(arranged(front), rules.last(), rule_order());
        assert(rules =~= front.push(rules.last()));
    }
}

fn rule_stands_ahead(a: &(String, String), b: &(String, String)) -> (ahead: bool)
    ensures
        ahead == (rule_order())(*a, *b),
{
    let a_kind = chars_of(a.1.as_str());
    let b_kind = chars_of(b.1.as_str());
    if comes_before(a_kind.as_slice(), b_kind.as_slice()) {
        return true;
    }
    if a.1 != b.1 {
        return false;
    }
    let a_pattern = chars_of(a.0.as_str());
    let b_pattern = chars_of(b.0.as_str());
    comes_before(a_pattern.as_slice(), b_pattern.as_slice())
}

fn place_rule(out: &mut Vec<(String, String)>, rule: (String, String))
    ensures
        final(out)@ == placed(old(out)@, rule, rule_order()),
{
    let mut at: usize = out.len();
    while at > 0 && rule_stands_ahead(&rule, &out[at - 1])
        invariant
            at <= out.len(),
            out@ == old(out)@,
            forall|j: int| at <= j < out.len() ==> (rule_order())(rule, #[trigger] out@[j]),
        decreases at,
    {
        at -= 1;
    }
    proof {
        lemma_placed_at(out@, rule, rule_order(), at as int);
    }
    out.insert(at, rule);
}

impl Database {
    /// The captures of `path`, newest first.
    pub fn get_snapshots_for_path(&self, path: &str) -> (found: Vec<Snapshot>)
        ensures
            records_of(found@) == selected(
                self.rows(),
                Filter::Path(path@),
                Order::NewestFirst,
            ).map_values(|row: Row| row.record),
    {
        let found = self.select(&Scope::Path(String::from_str(path)), Order::NewestFirst);
        snapshots_of(&found)
    }

    /// The captures of `path` with their ids, newest first.
    pub fn get_snapshots_for_path_with_id(&self, path: &str) -> (found: Vec<
        (i64, String, String, i64, String),
    >)
        ensures
            plain_with_id(found@) == selected(
                self.rows(),
                Filter::Path(path@),
                Order::NewestFirst,
            ).map_values(|row: Row| line_with_id_of(row)),
    {
        let found = self.select(&Scope::Path(String::from_str(path)), Order::NewestFirst);
        lines_with_id(&found)
    }

    /// The capture with the id `id`.
    pub fn get_snapshot_by_id(&self, id: i64) -> (found: Option<Snapshot>)
        ensures
            match found {
                Some(snapshot) => exists|i: int|
                    0 <= i < self.rows().len() && (#[trigger] self.rows()[i]).id == id
                        && self.rows()[i].record == snapshot@,
                None => forall|i: int|
                    0 <= i < self.rows().len() ==> (#[trigger] self.rows()[i]).id != id,
            },
    {
        let found = self.select(&Scope::Id(id), Order::NewestFirst);
        proof {
            lemma_selected_members(self.rows(), Filter::Id(id as int), Order::NewestFirst);
            let answer = rows_of(found@);
            if found.len() > 0 {
                assert(answer[0] == found@[0]@);
                assert(answer.contains(answer[0]));
                assert(self.rows().contains(answer[0]));
                let i = choose|i: int| 0 <= i < self.rows().len() && self.rows()[i] == answer[0];
                assert(self.rows()[i].id == id);
            } else {
                assert forall|i: int| 0 <= i < self.rows().len() implies (
                #[trigger] self.rows()[i]).id != id by {
                    if self.rows()[i].id == id {
                        assert(self.rows().contains(self.rows()[i]));
                        assert(answer.contains(self.rows()[i]));
                    }
                }
            }
        }
        if found.len() > 0 {
            Some(found[0].snapshot.clone())
        } else {
            None
        }
    }

    /// The capture whose fingerprint begins with `prefix`. A prefix that
    /// fits captures of one content stands for the latest of them; one
    /// that fits several contents is ambiguous, and one that fits none
    /// finds nothing.
    pub fn get_snapshot_by_checksum(&self, prefix: &str) -> (outcome: Result<Snapshot, EngineError>)
        ensures
            answers(
                outcome,
                resolved(selected(self.rows(), Filter::Fingerprint(prefix@), Order::NewestFirst)),
            ),
    {
        let found = self.select(&Scope::Fingerprint(String::from_str(prefix)), Order::NewestFirst);
        resolve(&found)
    }

    /// The version of `path` that `selector` names.
    pub fn resolve_version(&self, path: &str, selector: &Selector) -> (outcome: Result<
        Snapshot,
        EngineError,
    >)
        ensures
            match selector {
                Selector::Latest => match latest(self.rows(), path@) {
                    Some(row) => outcome matches Ok(snapshot) && snapshot@ == row.record,
                    None => outcome matches Err(EngineError::NotFound),
                },
                Selector::Prefix(prefix) => answers(
                    outcome,
                    resolved(
                        selected(
                            self.rows(),
                            Filter::Version(path@, prefix@),
                            Order::NewestFirst,
                        ),
                    ),
                ),
            },
    {
        match selector {
            Selector::Latest => {
                let found = self.select(&Scope::Path(String::from_str(path)), Order::NewestFirst);
                if found.len() > 0 {
                    assert(rows_of(found@)[0] == found@[0]@);
                    Ok(found[0].snapshot.clone())
                } else {
                    Err(EngineError::NotFound)
                }
            },
            Selector::Prefix(prefix) => {
                let found = self.select(
                    &Scope::Version(String::from_str(path), prefix.clone()),
                    Order::NewestFirst,
                );
                resolve(&found)
            },
        }
    }

    /// Every capture, newest first. Captures that show the same path,
    /// time, size and fingerprint are listed once.
    pub fn list_all_snapshots(&self) -> (found: Vec<(String, String, i64, String)>)
        ensures
            plain(found@) == distinct_lines(
                selected(self.rows(), Filter::All, Order::NewestFirst),
            ),
    {
        let found = self.select(&Scope::All, Order::NewestFirst);
        lines(&found)
    }

    /// Every capture with its id, newest first.
    pub fn list_all_snapshots_with_id(&self) -> (found: Vec<(i64, String, String, i64, String)>)
        ensures
            plain_with_id(found@) == selected(
                self.rows(),
                Filter::All,
                Order::NewestFirst,
            ).map_values(|row: Row| line_with_id_of(row)),
    {
        let found = self.select(&Scope::All, Order::NewestFirst);
        lines_with_id(&found)
    }

    /// The captures of the paths below `current_dir`, newest first.
    pub fn list_current_directory_snapshots(&self, current_dir: &str) -> (found: Vec<
        (String, String, i64, String),
    >)
        ensures
            plain(found@) == distinct_lines(
                selected(self.rows(), Filter::Below(current_dir@), Order::NewestFirst),
            ),
    {
        let found = self.select(&Scope::Below(String::from_str(current_dir)), Order::NewestFirst);
        lines(&found)
    }

    /// The captures of the paths below `current_dir` with their ids,
    /// newest first.
    pub fn list_current_directory_snapshots_with_id(&self, current_dir: &str) -> (found: Vec<
        (i64, String, String, i64, String),
    >)
        ensures
            plain_with_id(found@) == selected(
                self.rows(),
                Filter::Below(current_dir@),
                Order::NewestFirst,
            ).map_values(|row: Row| line_with_id_of(row)),
    {
        let found = self.select(&Scope::Below(String::from_str(current_dir)), Order::NewestFirst);
        lines_with_id(&found)
    }

    /// The captures of `dir` and of the paths below it, by path, those of
    /// one path newest first.
    pub fn list_directory_snapshots(&self, dir: &str) -> (found: Vec<(String, String, i64, String)>)
        ensures
            plain(found@) == distinct_lines(
                selected(self.rows(), Filter::Within(dir@), Order::ByPath),
            ),
    {
        let found = self.select(&Scope::Within(String::from_str(dir)), Order::ByPath);
        lines(&found)
    }

    /// The captures whose path holds `pattern` somewhere, newest first.
    pub fn search_snapshots(&self, pattern: &str) -> (found: Vec<(String, String, i64, String)>)
        ensures
            plain(found@) == distinct_lines(
                selected(self.rows(), Filter::Matching(pattern@), Order::NewestFirst),
            ),
    {
        let found = self.select(&Scope::Matching(String::from_str(pattern)), Order::NewestFirst);
        lines(&found)
    }

    /// Deletes the captures of `path` and has the store give up what no
    /// capture refers to any longer. Says how many rows were deleted and
    /// which files are to be removed.
    pub fn clear_snapshots(&mut self, path: &str, store: &mut ContentStore) -> (done: (
        usize,
        Vec<String>,
    ))
        requires
            old(self).wf(),
            old(store).wf(),
        ensures
            final(self).wf(),
            final(store).wf(),
            cleared(
                *old(self),
                *final(self),
                *old(store),
                *final(store),
                Filter::Path(path@),
                done,
            ),
    {
        self.clear(&Scope::Path(String::from_str(path)), store)
    }

    /// Deletes the captures of `dir` and of the paths below it, and has
    /// the store give up what no capture refers to any longer.
    pub fn clear_directory_snapshots(&mut self, dir: &str, store: &mut ContentStore) -> (done: (
        usize,
        Vec<String>,
    ))
        requires
            old(self).wf(),
            old(store).wf(),
        ensures
            final(self).wf(),
            final(store).wf(),
            cleared(
                *old(self),
                *final(self),
                *old(store),
                *final(store),
                Filter::Within(dir@),
                done,
            ),
    {
        self.clear(&Scope::Within(String::from_str(dir)), store)
    }

    /// Deletes every capture and has the store give up its blobs.
    pub fn clear_all_snapshots(&mut self, store: &mut ContentStore) -> (done: (usize, Vec<String>))
        requires
            old(self).wf(),
            old(store).wf(),
        ensures
            final(self).wf(),
            final(store).wf(),
            cleared(*old(self), *final(self), *old(store), *final(store), Filter::All, done),
            final(self).rows() == Seq::<Row>::empty(),
            done.0 == old(self).rows().len(),
    {
        proof {
            lemma_admitted_rejected(self.rows(), Filter::All);
            let left = rejected(self.rows(), Filter::All);
            if left.len() > 0 {
                assert(left.contains(left[0]));
                assert(self.rows().contains(left[0]) && !Filter::All.admits(left[0]));
            }
            assert(left =~= Seq::<Row>::empty());
        }
        self.clear(&Scope::All, store)
    }

    /// Deletes the capture with the id `id` and has the store give up
    /// what no capture refers to any longer. Says whether there was such a
    /// capture and which files are to be removed.
    pub fn delete_snapshot(&mut self, id: i64, store: &mut ContentStore) -> (done: (
        bool,
        Vec<String>,
    ))
        requires
            old(self).wf(),
            old(store).wf(),
        ensures
            final(self).wf(),
            final(store).wf(),
            cleared(
                *old(self),
                *final(self),
                *old(store),
                *final(store),
                Filter::Id(id as int),
                (
                    if done.0 {
                        1usize
                    } else {
                        0usize
                    },
                    done.1,
                ),
            ),
            done.0 == exists|i: int|
                0 <= i < old(self).rows().len() && (#[trigger] old(self).rows()[i]).id == id,
    {
        proof {
            lemma_admitted_rejected(self.rows(), Filter::Id(id as int));
            let hits = admitted(self.rows(), Filter::Id(id as int));
            if hits.len() > 0 {
                assert(hits.contains(hits[0]));
                assert(self.rows().contains(hits[0]) && Filter::Id(id as int).admits(hits[0]));
                let i = choose|i: int| 0 <= i < self.rows().len() && self.rows()[i] == hits[0];
                assert(self.rows()[i].id == id);
            }
            if exists|i: int| 0 <= i < self.rows().len() && (#[trigger] self.rows()[i]).id == id {
                let i = choose|i: int|
                    0 <= i < self.rows().len() && (#[trigger] self.rows()[i]).id == id;
                assert(self.rows().contains(self.rows()[i]));
                assert(hits.contains(self.rows()[i]));
            }
            lemma_one_row_for_an_id(self.rows(), id as int);
        }
        let (count, removed) = self.clear(&Scope::Id(id), store);
        (count > 0, removed)
    }

    /// Adds the rule `(pattern, exclusion_type)`.
    pub fn add_exclusion(&mut self, pattern: &str, exclusion_type: &str)
        ensures
            final(self).rows() == old(self).rows(),
            final(self).next_id() == old(self).next_id(),
            final(self).rules().len() == old(self).rules().len() + 1,
            final(self).rules().drop_last() == old(self).rules(),
            final(self).rules().last().0@ == pattern@,
            final(self).rules().last().1@ == exclusion_type@,
    {
        self.exclusions.push((String::from_str(pattern), String::from_str(exclusion_type)));
        assert(self.rules().drop_last() =~= old(self).rules());
    }

    /// Removes every rule whose pattern is `pattern`.
    pub fn remove_exclusion(&mut self, pattern: &str)
        ensures
            final(self).rows() == old(self).rows(),
            final(self).next_id() == old(self).next_id(),
            final(self).rules() == without_pattern(old(self).rules(), pattern@),
    {
        let wanted = String::from_str(pattern);
        let mut kept: Vec<(String, String)> = Vec::new();
        let mut i: usize = 0;
        while i < self.exclusions.len()
            invariant
                i <= self.exclusions.len(),
                wanted@ == pattern@,
                kept@ == without_pattern(self.exclusions@.take(i as int), pattern@),
            decreases self.exclusions.len() - i,
        {
            assert(self.exclusions@.take(i + 1).drop_last() == self.exclusions@.take(i as int));
            if self.exclusions[i].0 != wanted {
                kept.push((self.exclusions[i].0.clone(), self.exclusions[i].1.clone()));
            }
            i += 1;
        }
        assert(self.exclusions@.take(self.exclusions.len() as int) == self.exclusions@);
        self.exclusions = kept;
    }

    /// The rules, by kind and, within a kind, by pattern.
    pub fn list_exclusions(&self) -> (rules: Vec<(String, String)>)
        ensures
            rules@ == arranged(self.rules()),
    {
        let mut rules: Vec<(String, String)> = Vec::new();
        let mut i: usize = 0;
        while i < self.exclusions.len()
            invariant
                i <= self.exclusions.len(),
                rules@ == arranged(self.exclusions@.take(i as int)),
            decreases self.exclusions.len() - i,
        {
            assert(self.exclusions@.take(i + 1).drop_last() == self.exclusions@.take(i as int));
            place_rule(&mut rules, (self.exclusions[i].0.clone(), self.exclusions[i].1.clone()));
            i += 1;
        }
        assert(self.exclusions@.take(self.exclusions.len() as int) == self.exclusions@);
        rules
    }

    /// The rules, as `list_exclusions` gives them.
    pub fn get_exclusions(&self) -> (rules: Vec<(String, String)>)
        ensures
            rules@ == arranged(self.rules()),
    {
        self.list_exclusions()
    }
}

impl Database {
    /// The paths under which the contents of the captures are kept, each
    /// once.
    pub fn content_paths(&self) -> (paths: Vec<String>)
        ensures
            texts(paths@) == content_paths(self.rows()),
    {
        let mut paths: Vec<String> = Vec::new();
        let mut i: usize = 0;
        assert(texts(paths@) =~= Seq::<Seq<char>>::empty());
        while i < self.entries.len()
            invariant
                i <= self.entries.len(),
                texts(paths@) == content_paths(self.rows().take(i as int)),
            decreases self.entries.len() - i,
        {
            assert(self.rows().take(i + 1).drop_last() == self.rows().take(i as int));
            assert(self.rows().take(i + 1).last() == self.entries@[i as int]@);
            if !holds_text(&paths, self.entries[i].snapshot.content_path.as_str()) {
                let ghost before = texts(paths@);
                paths.push(self.entries[i].snapshot.content_path.clone());
                assert(texts(paths@) =~= before.push(self.entries@[i as int]@.record.content_path));
            }
            i += 1;
        }
        assert(self.rows().take(self.entries.len() as int) == self.rows());
        paths
    }

    /// Has the store give up the files that no capture refers to. They
    /// are handed back to be removed.
    pub fn cleanup_orphaned_files(&self, store: &mut ContentStore) -> (removed: Vec<String>)
        requires
            old(store).wf(),
        ensures
            final(store).wf(),
            final(store).dir() == old(store).dir(),
            final(store).files() == kept(old(store).files(), content_paths(self.rows())),
            texts(removed@) == orphans(old(store).files(), content_paths(self.rows())),
    {
        let live = self.content_paths();
        store.reclaim(&live)
    }

    /// Deletes the rows that `scope` takes in and, where there were any,
    /// has the store give up the files that no capture refers to any
    /// longer. Says how many rows were deleted and which files are to be
    /// removed.
    pub fn clear(&mut self, scope: &Scope, store: &mut ContentStore) -> (done: (usize, Vec<String>))
        requires
            old(self).wf(),
            old(store).wf(),
        ensures
            final(self).wf(),
            final(store).wf(),
            cleared(*old(self), *final(self), *old(store), *final(store), scope@, done),
    {
        let count = self.delete(scope);
        if count > 0 {
            let removed = self.cleanup_orphaned_files(store);
            (count, removed)
        } else {
            let removed: Vec<String> = Vec::new();
            assert(texts(removed@) =~= Seq::<Seq<char>>::empty());
            (count, removed)
        }
    }
}

/// What a deletion does: the rows that `filter` lets through are gone, and
/// so are, where there were such rows, the files of the store that no row
/// left in the table refers to. `done` holds the number of the deleted
/// rows and the files that are to be removed.
pub open spec fn cleared(
    before: Database,
    after: Database,
    store_before: ContentStore,
    store_after: ContentStore,
    filter: Filter,
    done: (usize, Vec<String>),
) -> bool {
    &&& after.rules() == before.rules()
    &&& after.next_id() == before.next_id()
    &&& after.rows() == rejected(before.rows(), filter)
    &&& done.0 == admitted(before.rows(), filter).len()
    &&& store_after.dir() == store_before.dir()
    &&& store_after.files() == if done.0 > 0 {
        kept(store_before.files(), content_paths(after.rows()))
    } else {
        store_before.files()
    }
    &&& texts(done.1@) == if done.0 > 0 {
        orphans(store_before.files(), content_paths(after.rows()))
    } else {
        Seq::empty()
    }
}

/// At most one row has a given id where the ids grow along the table.
pub proof fn lemma_one_row_for_an_id(rows: Seq<Row>, id: int)
    requires
        ids_ascend(rows),
    ensures
        admitted(rows, Filter::Id(id)).len() <= 1,
    decreases rows.len(),
{
    if rows.len() > 0 {
        let front = rows.drop_last();
        assert(ids_ascend(front)) by {
            assert forall|i: int, j: int| 0 <= i < j < front.len() implies front[i].id
                < front[j].id by {
                assert(front[i] == rows[i] && front[j] == rows[j]);
            }
        }
        lemma_one_row_for_an_id(front, id);
        if rows.last().id == id {
            lemma_admitted_rejected(front, Filter::Id(id));
            let hits = admitted(front, Filter::Id(id));
            if hits.len() > 0 {
                assert(hits.contains(hits[0]));
                assert(front.contains(hits[0]));
                let k = choose|k: int| 0 <= k < front.len() && front[k] == hits[0];
                assert(rows[k].id < rows[rows.len() - 1].id);
            }
        }
    }
}

/// A blob lives as long as a capture refers to it. When rows are deleted
/// and the store then gives up its orphans, a file that a row left in the
/// table refers to stays, and a file that only deleted rows referred to
/// goes. So the blob that two paths share outlives the records of one of
/// them, and does not outlive the records of both.
pub proof fn lemma_blob_lives_while_referred_to(
    rows: Seq<Row>,
    filter: Filter,
    files: Seq<Seq<char>>,
    blob: Seq<char>,
)
    requires
        files.contains(blob),
    ensures
        (exists|i: int|
            0 <= i < rows.len() && !filter.admits(#[trigger] rows[i]) && rows[i].record.content_path
                == blob) ==> kept(files, content_paths(rejected(rows, filter))).contains(blob)
            && !orphans(files, content_paths(rejected(rows, filter))).contains(blob),
        (forall|i: int|
            0 <= i < rows.len() && (#[trigger] rows[i]).record.content_path == blob
                ==> filter.admits(rows[i])) ==> orphans(
            files,
            content_paths(rejected(rows, filter)),
        ).contains(blob) && !kept(files, content_paths(rejected(rows, filter))).contains(blob),
{
    let left = rejected(rows, filter);
    let live = content_paths(left);
    lemma_admitted_rejected(rows, filter);
    lemma_content_paths(left);
    crate::store::lemma_kept_orphans(files, live);
    if exists|i: int|
        0 <= i < rows.len() && !filter.admits(#[trigger] rows[i]) && rows[i].record.content_path
            == blob {
        let i = choose|i: int|
            0 <= i < rows.len() && !filter.admits(#[trigger] rows[i])
                && rows[i].record.content_path == blob;
        assert(rows.contains(rows[i]));
        assert(left.contains(rows[i]));
        let k = choose|k: int| 0 <= k < left.len() && left[k] == rows[i];
        assert(left[k].record.content_path == blob);
        assert(live.contains(blob));
    }
    if forall|i: int|
        0 <= i < rows.len() && (#[trigger] rows[i]).record.content_path == blob ==> filter.admits(
            rows[i],
        ) {
        if live.contains(blob) {
            let k = choose|k: int|
                0 <= k < left.len() && (#[trigger] left[k]).record.content_path == blob;
            assert(left.contains(left[k]));
            assert(rows.contains(left[k]) && !filter.admits(left[k]));
            let i = choose|i: int| 0 <= i < rows.len() && rows[i] == left[k];
            assert(rows[i].record.content_path == blob);
        }
    }
}

/// The store and the index are in step: the files of the store are the
/// contents that the rows refer to, no more and no fewer.
pub open spec fn in_step(rows: Seq<Row>, files: Seq<Seq<char>>) -> bool {
    forall|path: Seq<char>|
        #![trigger files.contains(path)]
        #![trigger content_paths(rows).contains(path)]
        files.contains(path) <==> content_paths(rows).contains(path)
}

/// Recording a capture whose blob the store has taken note of leaves store
/// and index in step.
pub proof fn lemma_capture_keeps_step(rows: Seq<Row>, files: Seq<Seq<char>>, row: Row)
    requires
        in_step(rows, files),
    ensures
        in_step(rows.push(row), crate::store::with_file(files, row.record.content_path)),
{
    let blob = row.record.content_path;
    let after = rows.push(row);
    assert(after.drop_last() =~= rows);
    assert forall|path: Seq<char>|
        #![trigger crate::store::with_file(files, blob).contains(path)]
        #![trigger content_paths(after).contains(path)]
        crate::store::with_file(files, blob).contains(path) <==> content_paths(after).contains(
            path,
        ) by {
        lemma_push_contains(files, blob, path);
        lemma_push_contains(content_paths(rows), blob, path);
    }
}

/// Deleting rows and having the store give up its orphans leaves store and
/// index in step: a blob is there if and only if a row that is left refers
/// to it.
pub proof fn lemma_clear_keeps_step(rows: Seq<Row>, filter: Filter, files: Seq<Seq<char>>)
    requires
        in_step(rows, files),
    ensures
        in_step(rejected(rows, filter), kept(files, content_paths(rejected(rows, filter)))),
{
    let left = rejected(rows, filter);
    let live = content_paths(left);
    lemma_admitted_rejected(rows, filter);
    lemma_content_paths(left);
    lemma_content_paths(rows);
    crate::store::lemma_kept_orphans(files, live);
    assert forall|path: Seq<char>|
        #![trigger kept(files, live).contains(path)]
        #![trigger live.contains(path)]
        kept(files, live).contains(path) <==> live.contains(path) by {
        if live.contains(path) {
            let k = choose|k: int|
                0 <= k < left.len() && (#[trigger] left[k]).record.content_path == path;
            assert(left.contains(left[k]));
            assert(rows.contains(left[k]));
            let i = choose|i: int| 0 <= i < rows.len() && rows[i] == left[k];
            assert(rows[i].record.content_path == path);
            assert(content_paths(rows).contains(path));
            assert(files.contains(path));
        }
    }
}

/// What a request to clear `path` is about: everything within the
/// current directory where that is the path, else the captures of the
/// path itself.
pub fn clear_scope(path: &str, current_dir: &str) -> (scope: Scope)
    ensures
        scope@ == if path@ == current_dir@ {
            Filter::Within(current_dir@)
        } else {
            Filter::Path(path@)
        },
{
    if same_chars(chars_of(path).as_slice(), chars_of(current_dir).as_slice()) {
        Scope::Within(String::from_str(current_dir))
    } else {
        Scope::Path(String::from_str(path))
    }
}

/// One of the two contents of a comparison.
#[derive(Debug)]
pub enum CompareSide {
    /// The content of the file as it is now.
    Current,
    /// The content of a stored version.
    Stored(Snapshot),
}

/// The version of rank `rank` among `found`, or the first where there are
/// not so many.
pub open spec fn ranked(found: Seq<Row>, rank: int) -> Row {
    if 0 <= rank < found.len() {
        found[rank]
    } else {
        found[0]
    }
}

impl Database {
    /// The side of a comparison that `selector` names, for the file at
    /// `path`. The word `current` names the file as it is now; any other
    /// text is the beginning of a fingerprint. Without a selector the
    /// version of rank `rank` is meant, the latest having rank zero, or
    /// the latest where there are not so many.
    pub fn compare_side(&self, path: &str, selector: Option<&str>, rank: usize) -> (outcome: Result<
        CompareSide,
        EngineError,
    >)
        ensures
            match selector {
                Some(text) => if text@ == "current"@ {
                    outcome matches Ok(CompareSide::Current)
                } else {
                    let found = selected(
                        self.rows(),
                        Filter::Version(path@, text@),
                        Order::NewestFirst,
                    );
                    match outcome {
                        Ok(CompareSide::Stored(snapshot)) => answers(
                            Ok(snapshot),
                            resolved(found),
                        ),
                        Ok(CompareSide::Current) => false,
                        Err(error) => answers(Err(error), resolved(found)),
                    }
                },
                None => {
                    let found = selected(self.rows(), Filter::Path(path@), Order::NewestFirst);
                    if found.len() == 0 {
                        outcome matches Err(EngineError::NotFound)
                    } else {
                        outcome matches Ok(CompareSide::Stored(snapshot)) && snapshot@ == ranked(
                            found,
                            rank as int,
                        ).record
                    }
                },
            },
    {
        match selector {
            Some(text) => {
                if same_chars(chars_of(text).as_slice(), chars_of("current").as_slice()) {
                    Ok(CompareSide::Current)
                } else {
                    match self.resolve_version(path, &Selector::Prefix(String::from_str(text))) {
                        Ok(snapshot) => Ok(CompareSide::Stored(snapshot)),
                        Err(error) => Err(error),
                    }
                }
            },
            None => {
                let found = self.select(&Scope::Path(String::from_str(path)), Order::NewestFirst);
                if found.len() == 0 {
                    Err(EngineError::NotFound)
                } else if rank < found.len() {
                    assert(rows_of(found@)[rank as int] == found@[rank as int]@);
                    Ok(CompareSide::Stored(found[rank].snapshot.clone()))
                } else {
                    assert(rows_of(found@)[0] == found@[0]@);
                    Ok(CompareSide::Stored(found[0].snapshot.clone()))
                }
            },
        }
    }
}

} // verus!
