//! Paths as text. Components are separated by `/`; the paths that the index
//! records are absolute and canonical, so no component of them is `.` or
//! `..` and none ends in a separator.

use vstd::prelude::*;
use crate::text::{find_last, last_position, lemma_last_position, push_all, slice_of, starts_with};

verus! {

/// The separator of path components.
pub const SEPARATOR: char = '/';

/// `path` without the separators that it ends in.
pub open spec fn trimmed(path: Seq<char>) -> Seq<char>
    decreases path.len(),
{
    if path.len() > 0 && path.last() == SEPARATOR {
        trimmed(path.drop_last())
    } else {
        path
    }
}

/// `trimmed(path)` is the prefix of `path` after which only separators
/// follow, and it does not end in one.
pub proof fn lemma_trimmed(path: Seq<char>)
    ensures
        trimmed(path).len() <= path.len(),
        trimmed(path) == path.take(trimmed(path).len() as int),
        trimmed(path).len() > 0 ==> trimmed(path).last() != SEPARATOR,
        forall|j: int| trimmed(path).len() <= j < path.len() ==> path[j] == SEPARATOR,
    decreases path.len(),
{
    if path.len() > 0 && path.last() == SEPARATOR {
        let front = path.drop_last();
        lemma_trimmed(front);
        assert(front.take(trimmed(front).len() as int) =~= path.take(trimmed(front).len() as int));
        assert forall|j: int| trimmed(path).len() <= j < path.len() implies path[j]
            == SEPARATOR by {
            if j < front.len() {
                assert(front[j] == path[j]);
            }
        }
    } else {
        assert(path.take(path.len() as int) =~= path);
    }
}

/// The text after the last separator of `text`, or all of it.
pub open spec fn after_last_separator(text: Seq<char>) -> Seq<char> {
    match last_position(text, SEPARATOR) {
        Some(p) => text.subrange(p + 1, text.len() as int),
        None => text,
    }
}

/// The final component of `path`: what follows the last separator once
/// trailing separators are set aside. A path that ends in an empty
/// component, in `.` or in `..` has none.
pub open spec fn base_name(path: Seq<char>) -> Option<Seq<char>> {
    let name = after_last_separator(trimmed(path));
    if name.len() == 0 || name == seq!['.'] || name == seq!['.', '.'] {
        None
    } else {
        Some(name)
    }
}

/// The extension of a component: what follows its last dot. A name without
/// a dot has none, nor has one whose only dot comes first.
pub open spec fn name_extension(name: Seq<char>) -> Option<Seq<char>> {
    match last_position(name, '.') {
        Some(p) => if p > 0 {
            Some(name.subrange(p + 1, name.len() as int))
        } else {
            None
        },
        None => None,
    }
}

/// The extension of the final component of `path`.
pub open spec fn extension(path: Seq<char>) -> Option<Seq<char>> {
    match base_name(path) {
        Some(name) => name_extension(name),
        None => None,
    }
}

/// `rest` placed under `base`: an absolute `rest` stands alone, and a
/// separator is put between the two where `base` does not end in one.
pub open spec fn joined(base: Seq<char>, rest: Seq<char>) -> Seq<char> {
    if rest.len() > 0 && rest[0] == SEPARATOR {
        rest
    } else if base.len() == 0 || base.last() == SEPARATOR {
        base + rest
    } else {
        base + seq![SEPARATOR] + rest
    }
}

/// `path` is `dir` or lies below it.
pub open spec fn is_within(path: Seq<char>, dir: Seq<char>) -> bool {
    path == dir || (dir + seq![SEPARATOR]).is_prefix_of(path)
}

/// `path` lies below `dir`.
pub open spec fn is_below(path: Seq<char>, dir: Seq<char>) -> bool {
    (dir + seq![SEPARATOR]).is_prefix_of(path)
}

/// The last `c` of a text that ends in a part without `c` is the last `c` of
/// what comes before that part.
pub proof fn lemma_last_position_before(front: Seq<char>, back: Seq<char>, c: char)
    requires
        forall|j: int| 0 <= j < back.len() ==> back[j] != c,
    ensures
        last_position(front + back, c) == last_position(front, c),
    decreases back.len(),
{
    if back.len() > 0 {
        let shorter = back.drop_last();
        assert((front + back).drop_last() =~= front + shorter);
        assert((front + back).last() == back.last());
        lemma_last_position_before(front, shorter, c);
    } else {
        assert(front + back =~= front);
    }
}

/// The last `c` of a text that has `c` at `at` and not after it is at `at`.
pub proof fn lemma_last_position_is(text: Seq<char>, c: char, at: int)
    requires
        0 <= at < text.len(),
        text[at] == c,
        forall|j: int| at < j < text.len() ==> text[j] != c,
    ensures
        last_position(text, c) == Some(at),
    decreases text.len(),
{
    if text.last() != c {
        lemma_last_position_is(text.drop_last(), c, at);
    }
}

/// A path that ends in a component with a stem, a dot and the extension
/// `ext` has the extension `ext`: where `stem` is not empty and does not
/// end in a separator, and `ext` is not empty and holds neither a
/// separator nor a dot.
pub proof fn lemma_extension_of_built(stem: Seq<char>, ext: Seq<char>)
    requires
        stem.len() > 0,
        stem.last() != SEPARATOR,
        ext.len() > 0,
        forall|j: int| 0 <= j < ext.len() ==> ext[j] != SEPARATOR && ext[j] != '.',
    ensures
        extension(stem + seq!['.'] + ext) == Some(ext),
        base_name(stem + seq!['.'] + ext) is Some,
{
    let tail = seq!['.'] + ext;
    let built = stem + tail;
    assert(built =~= stem + seq!['.'] + ext);
    assert(built.last() == ext.last());
    assert(trimmed(built) == built);
    assert forall|j: int| 0 <= j < tail.len() implies tail[j] != SEPARATOR by {
        if j > 0 {
            assert(tail[j] == ext[j - 1]);
        }
    }
    lemma_last_position_before(stem, tail, SEPARATOR);
    lemma_last_position(stem, SEPARATOR);
    let start: int = match last_position(stem, SEPARATOR) {
        Some(p) => p + 1,
        None => 0,
    };
    assert(start < stem.len());
    let name = after_last_separator(built);
    assert(name =~= stem.subrange(start, stem.len() as int) + tail);
    let dot = stem.len() - start;
    assert(name[dot] == '.');
    assert forall|j: int| dot < j < name.len() implies name[j] != '.' by {
        assert(name[j] == ext[j - dot - 1]);
    }
    lemma_last_position_is(name, '.', dot);
    assert(name.subrange(dot + 1, name.len() as int) =~= ext);
    assert(name.last() == ext.last());
    assert(name != seq!['.']) by {
        if name == seq!['.'] {
            assert(name.last() == '.');
        }
    }
    assert(name != seq!['.', '.']) by {
        if name == seq!['.', '.'] {
            assert(name.last() == '.');
        }
    }
}

fn trimmed_len(path: &[char]) -> (len: usize)
    ensures
        len == trimmed(path@).len(),
        len <= path.len(),
        trimmed(path@) == path@.take(len as int),
{
    let mut len: usize = path.len();
    assert(path@.take(len as int) == path@);
    while len > 0 && path[len - 1] == SEPARATOR
        invariant
            len <= path.len(),
            trimmed(path@) == trimmed(path@.take(len as int)),
        decreases len,
    {
        assert(path@.take(len as int).drop_last() == path@.take(len - 1));
        len -= 1;
    }
    proof {
        lemma_trimmed(path@);
    }
    len
}

/// The final component of `path`.
pub fn file_name(path: &[char]) -> (name: Option<Vec<char>>)
    ensures
        match name {
            Some(chars) => base_name(path@) == Some(chars@),
            None => base_name(path@) is None,
        },
{
    let len = trimmed_len(path);
    let front = slice_of(path, 0, len);
    assert(front@ == trimmed(path@));
    let start: usize = match find_last(front.as_slice(), SEPARATOR) {
        Some(p) => {
            proof {
                lemma_last_position(front@, SEPARATOR);
            }
            p + 1
        },
        None => 0,
    };
    let name = slice_of(front.as_slice(), start, len);
    assert(name@ == after_last_separator(trimmed(path@)));
    if name.len() == 0 {
        return None;
    }
    if name.len() == 1 && name[0] == '.' {
        assert(name@ =~= seq!['.']);
        return None;
    }
    if name.len() == 2 && name[0] == '.' && name[1] == '.' {
        assert(name@ =~= seq!['.', '.']);
        return None;
    }
    assert(name@ != seq!['.']) by {
        if name@ == seq!['.'] {
            assert(name@.len() == 1 && name@[0] == '.');
        }
    }
    assert(name@ != seq!['.', '.']) by {
        if name@ == seq!['.', '.'] {
            assert(name@.len() == 2 && name@[0] == '.' && name@[1] == '.');
        }
    }
    Some(name)
}

/// The extension of the component `name`.
pub fn extension_of_name(name: &[char]) -> (ext: Option<Vec<char>>)
    ensures
        match ext {
            Some(chars) => name_extension(name@) == Some(chars@),
            None => name_extension(name@) is None,
        },
{
    match find_last(name, '.') {
        Some(p) => {
            proof {
                lemma_last_position(name@, '.');
            }
            assert(p < name.len());
            if p > 0 {
                Some(slice_of(name, p + 1, name.len()))
            } else {
                None
            }
        },
        None => None,
    }
}

/// The extension of the final component of `path`.
pub fn extension_of(path: &[char]) -> (ext: Option<Vec<char>>)
    ensures
        match ext {
            Some(chars) => extension(path@) == Some(chars@),
            None => extension(path@) is None,
        },
{
    match file_name(path) {
        Some(name) => extension_of_name(name.as_slice()),
        None => None,
    }
}

/// `path` without the separators that it ends in.
pub fn trim(path: &[char]) -> (out: Vec<char>)
    ensures
        out@ == trimmed(path@),
{
    let len = trimmed_len(path);
    slice_of(path, 0, len)
}

/// `rest` placed under `base`.
pub fn join(base: &[char], rest: &[char]) -> (out: Vec<char>)
    ensures
        out@ == joined(base@, rest@),
{
    let mut out: Vec<char> = Vec::new();
    if rest.len() > 0 && rest[0] == SEPARATOR {
        push_all(&mut out, rest);
        assert(out@ =~= rest@);
    } else if base.len() == 0 || base[base.len() - 1] == SEPARATOR {
        push_all(&mut out, base);
        push_all(&mut out, rest);
        assert(out@ =~= base@ + rest@);
    } else {
        push_all(&mut out, base);
        out.push(SEPARATOR);
        push_all(&mut out, rest);
        assert(out@ =~= base@ + seq![SEPARATOR] + rest@);
    }
    out
}

/// Whether `path` lies below `dir`.
pub fn lies_below(path: &[char], dir: &[char]) -> (below: bool)
    ensures
        below == is_below(path@, dir@),
{
    let mut prefix: Vec<char> = Vec::new();
    push_all(&mut prefix, dir);
    prefix.push(SEPARATOR);
    assert(prefix@ =~= dir@ + seq![SEPARATOR]);
    starts_with(path, prefix.as_slice())
}

} // verus!
