//! The kinds of exclusion rule, as operators name them.

use vstd::prelude::*;
use crate::text::{chars_of, same_chars};

verus! {

/// How an exclusion pattern is held against a path.
#[derive(Clone, Copy, Debug, PartialEq, Eq, Structural)]
pub enum ExclusionType {
    /// The pattern occurs anywhere in the path.
    Directory,
    /// The pattern is the extension of the final component.
    Extension,
    /// The pattern is the final component.
    File,
}

impl ExclusionType {
    /// The word under which this kind is stored and shown.
    pub open spec fn name(self) -> Seq<char> {
        match self {
            ExclusionType::Directory => "directory"@,
            ExclusionType::Extension => "extension"@,
            ExclusionType::File => "file"@,
        }
    }

    pub fn as_str(&self) -> (word: &'static str)
        ensures
            word@ == self.name(),
    {
        match self {
            ExclusionType::Directory => "directory",
            ExclusionType::Extension => "extension",
            ExclusionType::File => "file",
        }
    }

    /// The kind that `word` names, if it names one.
    pub open spec fn named(word: Seq<char>) -> Option<ExclusionType> {
        if word == "directory"@ {
            Some(ExclusionType::Directory)
        } else if word == "extension"@ {
            Some(ExclusionType::Extension)
        } else if word == "file"@ {
            Some(ExclusionType::File)
        } else {
            None
        }
    }

    /// The kind that `word` names. Words are held exactly: case counts.
    pub fn parse(word: &str) -> (kind: Option<ExclusionType>)
        ensures
            kind == ExclusionType::named(word@),
    {
        let chars = chars_of(word);
        if same_chars(chars.as_slice(), chars_of("directory").as_slice()) {
            Some(ExclusionType::Directory)
        } else if same_chars(chars.as_slice(), chars_of("extension").as_slice()) {
            Some(ExclusionType::Extension)
        } else if same_chars(chars.as_slice(), chars_of("file").as_slice()) {
            Some(ExclusionType::File)
        } else {
            None
        }
    }
}

/// The three kinds have three different names, and each name is read back
/// as its kind.
pub proof fn lemma_kind_names(kind: ExclusionType)
    ensures
        ExclusionType::named(kind.name()) == Some(kind),
{
    reveal_strlit("directory");
    reveal_strlit("extension");
    reveal_strlit("file");
    assert("directory"@[0] == 'd');
    assert("extension"@[0] == 'e');
    assert("file"@.len() == 4);
}

} // verus!
