//! Listings of snapshots as plain text, page by page.

use vstd::prelude::*;
use crate::db::{plain, plain_with_id};
use crate::path::{base_name, file_name};
use crate::text::{chars_of, left_aligned, numeral, push_all, push_left_aligned, push_numeral,
    push_right_aligned, push_signed_numeral, push_str, right_aligned, signed_numeral, slice_of,
    string_of};
use crate::utils::{format_size, size_label};

verus! {

/// How many snapshots a page of a listing shows.
pub const ITEMS_PER_PAGE: usize = 10;

/// How many pages `total` items fill.
pub open spec fn page_count(total: int) -> int {
    (total + ITEMS_PER_PAGE - 1) / (ITEMS_PER_PAGE as int)
}

/// The items that page `page` of `total` items shows, from the first
/// position up to the second. Pages are counted from one. There is no page
/// zero and no page beyond the last; of no items, every page is empty.
pub open spec fn page_span(total: int, page: int) -> Option<(int, int)> {
    if page < 1 || (page > page_count(total) && total > 0) {
        None
    } else if total == 0 {
        Some((0, 0))
    } else {
        Some(
            (
                (page - 1) * ITEMS_PER_PAGE,
                if page * ITEMS_PER_PAGE < total {
                    page * ITEMS_PER_PAGE
                } else {
                    total
                },
            ),
        )
    }
}

/// How many pages `total` items fill.
pub fn count_pages(total: usize) -> (pages: usize)
    ensures
        pages == page_count(total as int),
{
    if total % ITEMS_PER_PAGE == 0 {
        total / ITEMS_PER_PAGE
    } else {
        total / ITEMS_PER_PAGE + 1
    }
}

/// The items that page `page` of `total` items shows.
pub fn page_bounds(total: usize, page: u32) -> (span: Option<(usize, usize)>)
    ensures
        match span {
            Some((start, end)) => page_span(total as int, page as int) == Some(
                (start as int, end as int),
            ) && start <= end <= total,
            None => page_span(total as int, page as int) is None,
        },
{
    let pages = count_pages(total);
    if page == 0 {
        return None;
    }
    if total == 0 {
        return Some((0, 0));
    }
    if page as u64 > pages as u64 {
        return None;
    }
    let page = page as usize;
    let start = (page - 1) * ITEMS_PER_PAGE;
    let end = if total - start > ITEMS_PER_PAGE {
        start + ITEMS_PER_PAGE
    } else {
        total
    };
    Some((start, end))
}

/// `unit` written `count` times.
pub open spec fn repeated(unit: Seq<char>, count: nat) -> Seq<char>
    decreases count,
{
    if count == 0 {
        Seq::empty()
    } else {
        repeated(unit, (count - 1) as nat) + unit
    }
}

fn push_repeated(out: &mut Vec<char>, unit: &str, count: usize)
    ensures
        final(out)@ == old(out)@ + repeated(unit@, count as nat),
{
    let chars = chars_of(unit);
    let mut i: usize = 0;
    assert(out@ =~= old(out)@ + repeated(unit@, 0));
    while i < count
        invariant
            i <= count,
            chars@ == unit@,
            out@ == old(out)@ + repeated(unit@, i as nat),
        decreases count - i,
    {
        let ghost before = out@;
        push_all(out, chars.as_slice());
        i += 1;
        assert(out@ =~= old(out)@ + repeated(unit@, i as nat));
    }
}

/// The stroke of which the rules of a listing are made.
pub open spec fn stroke() -> Seq<char> {
    "\u{e2}\u{201d}\u{20ac}"@
}

/// The first `count` characters of `text`, or all of it.
pub open spec fn first_chars(text: Seq<char>, count: int) -> Seq<char> {
    if text.len() > count {
        text.take(count)
    } else {
        text
    }
}

/// The name under which a listing shows a path: its final component, or
/// the path itself where it has none.
pub open spec fn shown_name(path: Seq<char>) -> Seq<char> {
    match base_name(path) {
        Some(name) => name,
        None => path,
    }
}

/// The line of a snapshot in a listing with ids.
pub open spec fn row_with_id(line: (int, Seq<char>, Seq<char>, int, Seq<char>)) -> Seq<char> {
    right_aligned(signed_numeral(line.0), 6) + "  | "@ + left_aligned(first_chars(line.2, 22), 28)
        + " | "@ + right_aligned(size_label(line.3), 8) + "  | "@ + left_aligned(
        first_chars(line.4, 16),
        16,
    ) + " | "@ + shown_name(line.1) + "\n"@
}

/// The lines of some snapshots in a listing with ids.
pub open spec fn rows_with_id(lines: Seq<(int, Seq<char>, Seq<char>, int, Seq<char>)>) -> Seq<char>
    decreases lines.len(),
{
    if lines.len() == 0 {
        Seq::empty()
    } else {
        rows_with_id(lines.drop_last()) + row_with_id(lines.last())
    }
}

/// What stands above the lines of a listing with ids.
pub open spec fn heading_with_id() -> Seq<char> {
    "Snapshots:\n"@ + repeated(stroke(), 50) + "\n"@
        + "ID      | Date/Time                      | Size      | Checksum            | Path\n"@
        + repeated(stroke(), 80) + "\n"@
}

/// What stands below the lines of a page.
pub open spec fn page_note(width: nat, page: int, total: int) -> Seq<char> {
    repeated(stroke(), width) + "\n"@ + "Page "@ + numeral(page as nat) + " of "@ + numeral(
        page_count(total) as nat,
    ) + " ("@ + numeral(total as nat) + " items)\n"@
}

/// What is said of a page that does not exist.
pub open spec fn no_such_page(total: int) -> Seq<char> {
    "Invalid page number. Total pages: "@ + numeral(page_count(total) as nat)
}

/// A listing with ids: all of `lines` where no page is asked for, else the
/// lines of that page with a note below.
pub open spec fn listing_with_id(
    lines: Seq<(int, Seq<char>, Seq<char>, int, Seq<char>)>,
    page: Option<u32>,
) -> Seq<char> {
    match page {
        None => heading_with_id() + rows_with_id(lines),
        Some(number) => match page_span(lines.len() as int, number as int) {
            Some((start, end)) => heading_with_id() + rows_with_id(lines.subrange(start, end))
                + page_note(80, number as int, lines.len() as int)
                + "Use checksum prefix with restore/view/export to select specific snapshot\n"@,
            None => no_such_page(lines.len() as int),
        },
    }
}

/// The entry of a snapshot in a listing without ids.
pub open spec fn row_plain(line: (Seq<char>, Seq<char>, int, Seq<char>)) -> Seq<char> {
    "\u{f0}\u{178}\u{201c} "@ + line.0 + "\n  \u{f0}\u{178}\u{201c}\u{2026} "@ + line.1
        + " | \u{f0}\u{178}\u{2019}\u{be} "@ + size_label(line.2) + " | \u{f0}\u{178}\u{201d} "@
        + first_chars(line.3, 16) + "\n"@
}

/// The entries of some snapshots in a listing without ids.
pub open spec fn rows_plain(lines: Seq<(Seq<char>, Seq<char>, int, Seq<char>)>) -> Seq<char>
    decreases lines.len(),
{
    if lines.len() == 0 {
        Seq::empty()
    } else {
        rows_plain(lines.drop_last()) + row_plain(lines.last())
    }
}

/// What stands above the entries of a listing without ids.
pub open spec fn heading_plain() -> Seq<char> {
    "Snapshots:\n"@ + repeated(stroke(), 50) + "\n"@
}

/// A listing without ids: all of `lines` where no page is asked for, else
/// the entries of that page with a note below.
pub open spec fn listing_plain(
    lines: Seq<(Seq<char>, Seq<char>, int, Seq<char>)>,
    page: Option<u32>,
) -> Seq<char> {
    match page {
        None => heading_plain() + rows_plain(lines),
        Some(number) => match page_span(lines.len() as int, number as int) {
            Some((start, end)) => heading_plain() + rows_plain(lines.subrange(start, end))
                + page_note(50, number as int, lines.len() as int),
            None => no_such_page(lines.len() as int),
        },
    }
}

fn first_of(text: &str, count: usize) -> (out: Vec<char>)
    ensures
        out@ == first_chars(text@, count as int),
{
    let chars = chars_of(text);
    if chars.len() > count {
        let out = slice_of(chars.as_slice(), 0, count);
        assert(out@ =~= text@.take(count as int));
        out
    } else {
        chars
    }
}

fn name_of(path: &str) -> (out: Vec<char>)
    ensures
        out@ == shown_name(path@),
{
    let chars = chars_of(path);
    match file_name(chars.as_slice()) {
        Some(name) => name,
        None => chars,
    }
}

fn push_row_with_id(out: &mut Vec<char>, line: &(i64, String, String, i64, String))
    ensures
        final(out)@ == old(out)@ + row_with_id(
            (line.0 as int, line.1@, line.2@, line.3 as int, line.4@),
        ),
{
    let mut id: Vec<char> = Vec::new();
    push_signed_numeral(&mut id, line.0);
    assert(id@ =~= signed_numeral(line.0 as int));
    let date = first_of(line.2.as_str(), 22);
    let size = chars_of(format_size(line.3).as_str());
    let checksum = first_of(line.4.as_str(), 16);
    let name = name_of(line.1.as_str());
    push_right_aligned(out, id.as_slice(), 6);
    push_str(out, "  | ");
    push_left_aligned(out, date.as_slice(), 28);
    push_str(out, " | ");
    push_right_aligned(out, size.as_slice(), 8);
    push_str(out, "  | ");
    push_left_aligned(out, checksum.as_slice(), 16);
    push_str(out, " | ");
    push_all(out, name.as_slice());
    push_str(out, "\n");
    assert(out@ =~= old(out)@ + row_with_id(
        (line.0 as int, line.1@, line.2@, line.3 as int, line.4@),
    ));
}

fn push_rows_with_id(
    out: &mut Vec<char>,
    lines: &[(i64, String, String, i64, String)],
    start: usize,
    end: usize,
)
    requires
        start <= end <= lines.len(),
    ensures
        final(out)@ == old(out)@ + rows_with_id(
            plain_with_id(lines@).subrange(start as int, end as int),
        ),
{
    let ghost all = plain_with_id(lines@);
    let mut i: usize = start;
    assert(out@ =~= old(out)@ + rows_with_id(all.subrange(start as int, start as int)));
    while i < end
        invariant
            start <= i <= end <= lines.len(),
            all == plain_with_id(lines@),
            out@ == old(out)@ + rows_with_id(all.subrange(start as int, i as int)),
        decreases end - i,
    {
        push_row_with_id(out, &lines[i]);
        assert(all.subrange(start as int, i + 1).drop_last() == all.subrange(
            start as int,
            i as int,
        ));
        assert(all.subrange(start as int, i + 1).last() == all[i as int]);
        i += 1;
        assert(out@ =~= old(out)@ + rows_with_id(all.subrange(start as int, i as int)));
    }
}

fn push_row_plain(out: &mut Vec<char>, line: &(String, String, i64, String))
    ensures
        final(out)@ == old(out)@ + row_plain((line.0@, line.1@, line.2 as int, line.3@)),
{
    let size = format_size(line.2);
    let checksum = first_of(line.3.as_str(), 16);
    push_str(out, "\u{f0}\u{178}\u{201c} ");
    push_str(out, line.0.as_str());
    push_str(out, "\n  \u{f0}\u{178}\u{201c}\u{2026} ");
    push_str(out, line.1.as_str());
    push_str(out, " | \u{f0}\u{178}\u{2019}\u{be} ");
    push_str(out, size.as_str());
    push_str(out, " | \u{f0}\u{178}\u{201d} ");
    push_all(out, checksum.as_slice());
    push_str(out, "\n");
    assert(out@ =~= old(out)@ + row_plain((line.0@, line.1@, line.2 as int, line.3@)));
}

fn push_rows_plain(
    out: &mut Vec<char>,
    lines: &[(String, String, i64, String)],
    start: usize,
    end: usize,
)
    requires
        start <= end <= lines.len(),
    ensures
        final(out)@ == old(out)@ + rows_plain(plain(lines@).subrange(start as int, end as int)),
{
    let ghost all = plain(lines@);
    let mut i: usize = start;
    assert(out@ =~= old(out)@ + rows_plain(all.subrange(start as int, start as int)));
    while i < end
        invariant
            start <= i <= end <= lines.len(),
            all == plain(lines@),
            out@ == old(out)@ + rows_plain(all.subrange(start as int, i as int)),
        decreases end - i,
    {
        push_row_plain(out, &lines[i]);
        assert(all.subrange(start as int, i + 1).drop_last() == all.subrange(
            start as int,
            i as int,
        ));
        assert(all.subrange(start as int, i + 1).last() == all[i as int]);
        i += 1;
        assert(out@ =~= old(out)@ + rows_plain(all.subrange(start as int, i as int)));
    }
}

fn push_page_note(out: &mut Vec<char>, width: usize, page: u32, total: usize)
    ensures
        final(out)@ == old(out)@ + page_note(width as nat, page as int, total as int),
{
    push_repeated(out, "\u{e2}\u{201d}\u{20ac}", width);
    push_str(out, "\n");
    push_str(out, "Page ");
    push_numeral(out, page as u64);
    push_str(out, " of ");
    push_numeral(out, count_pages(total) as u64);
    push_str(out, " (");
    push_numeral(out, total as u64);
    push_str(out, " items)\n");
    assert(out@ =~= old(out)@ + page_note(width as nat, page as int, total as int));
}

fn no_page(total: usize) -> (out: String)
    ensures
        out@ == no_such_page(total as int),
{
    let mut out: Vec<char> = Vec::new();
    push_str(&mut out, "Invalid page number. Total pages: ");
    push_numeral(&mut out, count_pages(total) as u64);
    assert(out@ =~= no_such_page(total as int));
    string_of(out.as_slice())
}

/// A listing of `snapshots` with their ids. Each line shows the id, the
/// capture time cut to 22 characters, the size, the first 16 characters of
/// the fingerprint and the name of the file.
pub fn format_snapshots_list_with_id(
    snapshots: &[(i64, String, String, i64, String)],
    page: Option<u32>,
) -> (listing: String)
    ensures
        listing@ == listing_with_id(plain_with_id(snapshots@), page),
{
    let total = snapshots.len();
    let mut out: Vec<char> = Vec::new();
    push_str(&mut out, "Snapshots:\n");
    push_repeated(&mut out, "\u{e2}\u{201d}\u{20ac}", 50);
    push_str(&mut out, "\n");
    push_str(
        &mut out,
        "ID      | Date/Time                      | Size      | Checksum            | Path\n",
    );
    push_repeated(&mut out, "\u{e2}\u{201d}\u{20ac}", 80);
    push_str(&mut out, "\n");
    assert(out@ =~= heading_with_id());
    match page {
        None => {
            push_rows_with_id(&mut out, snapshots, 0, total);
            assert(plain_with_id(snapshots@).subrange(0, total as int) =~= plain_with_id(
                snapshots@,
            ));
        },
        Some(number) => match page_bounds(total, number) {
            Some((start, end)) => {
                push_rows_with_id(&mut out, snapshots, start, end);
                push_page_note(&mut out, 80, number, total);
                push_str(
                    &mut out,
                    "Use checksum prefix with restore/view/export to select specific snapshot\n",
                );
            },
            None => {
                return no_page(total);
            },
        },
    }
    string_of(out.as_slice())
}

/// A listing of `snapshots` without ids. Each entry shows the path and,
/// below it, the capture time, the size and the first 16 characters of the
/// fingerprint.
pub fn format_snapshots_list(
    snapshots: &[(String, String, i64, String)],
    page: Option<u32>,
) -> (listing: String)
    ensures
        listing@ == listing_plain(plain(snapshots@), page),
{
    let total = snapshots.len();
    let mut out: Vec<char> = Vec::new();
    push_str(&mut out, "Snapshots:\n");
    push_repeated(&mut out, "\u{e2}\u{201d}\u{20ac}", 50);
    push_str(&mut out, "\n");
    assert(out@ =~= heading_plain());
    match page {
        None => {
            push_rows_plain(&mut out, snapshots, 0, total);
            assert(plain(snapshots@).subrange(0, total as int) =~= plain(snapshots@));
        },
        Some(number) => match page_bounds(total, number) {
            Some((start, end)) => {
                push_rows_plain(&mut out, snapshots, start, end);
                push_page_note(&mut out, 50, number, total);
            },
            None => {
                return no_page(total);
            },
        },
    }
    string_of(out.as_slice())
}

} // verus!
