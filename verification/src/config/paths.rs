//! Names of files.

use vstd::prelude::*;

use crate::llm::reply;
use crate::llm::reply::last_position;
use crate::text::chars::{chars_of, concat2, same_text, string_of};

verus! {

/// The part of a path that names are made of: the directory it is in and its last part.
pub struct InputPath {
    pub parent: Option<String>,
    pub file_name: Option<String>,
}

/// A directory and a file name in it.
pub struct OutputPath {
    pub dir: String,
    pub name: String,
}

/// A file name without its last extension; a dot at the start does not begin one.
pub open spec fn stem_of(name: Seq<char>) -> Seq<char> {
    match reply::last_of(name, '.') {
        Some(i) => if i > 0 {
            name.take(i)
        } else {
            name
        },
        None => name,
    }
}

/// The last extension of a file name; a dot at the start does not begin one, and neither does one of
/// the two dots that name the directory above.
pub open spec fn extension_of(name: Seq<char>) -> Option<Seq<char>> {
    match reply::last_of(name, '.') {
        Some(i) => if i > 0 && name != seq!['.', '.'] {
            Some(name.skip(i + 1))
        } else {
            None
        },
        None => None,
    }
}

/// A character that occurs in a text has a last position, and that is not before any other.
pub proof fn lemma_last_of(s: Seq<char>, c: char, i: int)
    requires
        0 <= i < s.len(),
        s[i] == c,
    ensures
        match reply::last_of(s, c) {
            Some(k) => i <= k < s.len(),
            None => false,
        },
    decreases s.len(),
{
    if s.last() != c {
        lemma_last_of(s.drop_last(), c, i);
    }
}

/// What the name of an input says: its file name without the last extension.
pub open spec fn input_stem(file_name: Option<Seq<char>>) -> Seq<char> {
    match file_name {
        Some(n) => stem_of(n),
        None => "output"@,
    }
}

/// A text that may be missing.
pub open spec fn text_view(t: Option<String>) -> Option<Seq<char>> {
    match t {
        Some(s) => Some(s@),
        None => None,
    }
}

impl InputPath {
    /// The file name without its last extension.
    pub fn file_stem(&self) -> (r: String)
        ensures
            r@ == input_stem(text_view(self.file_name)),
    {
        match &self.file_name {
            Some(n) => {
                let v = chars_of(n.as_str());
                match last_position(v.as_slice(), '.') {
                    Some(i) => if i > 0 {
                        assert(v@.take(i as int) =~= v@.subrange(0, i as int));
                        string_of(&v.as_slice()[0..i])
                    } else {
                        n.clone()
                    },
                    None => n.clone(),
                }
            },
            None => "output".to_string(),
        }
    }

    /// Whether the last extension of the file name is this one.
    pub fn has_extension(&self, wanted: &str) -> (r: bool)
        ensures
            r == (match text_view(self.file_name) {
                Some(n) => extension_of(n) == Some(wanted@),
                None => false,
            }),
    {
        match &self.file_name {
            Some(n) => {
                let v = chars_of(n.as_str());
                proof {
                    reveal_strlit("..");
                    assert(".."@ =~= seq!['.', '.']);
                }
                if same_text(n.as_str(), "..") {
                    return false;
                }
                match last_position(v.as_slice(), '.') {
                    Some(i) => if i > 0 {
                        let end: usize = v.len();
                        let ext = string_of(&v.as_slice()[i + 1..end]);
                        assert(ext@ =~= n@.skip(i + 1));
                        same_text(ext.as_str(), wanted)
                    } else {
                        false
                    },
                    None => false,
                }
            },
            None => false,
        }
    }
}

/// The directory that output goes to: the one that was asked for, or else that of the input, or
/// else the current one.
pub open spec fn output_dir(wanted: Option<Seq<char>>, parent: Option<Seq<char>>) -> Seq<char> {
    match wanted {
        Some(d) => d,
        None => match parent {
            Some(p) => if p.len() > 0 {
                p
            } else {
                "."@
            },
            None => "."@,
        },
    }
}

/// The directory that output goes to.
pub fn out_dir_for(wanted: &Option<String>, input: &InputPath) -> (r: String)
    ensures
        r@ == output_dir(text_view(*wanted), text_view(input.parent)),
{
    match wanted {
        Some(d) => d.clone(),
        None => match &input.parent {
            Some(p) => if p.as_str().is_empty() {
                ".".to_string()
            } else {
                p.clone()
            },
            None => ".".to_string(),
        },
    }
}

/// The output for an input, with an ending to its name.
pub fn output_for(wanted: &Option<String>, input: &InputPath, ending: &str) -> (r: OutputPath)
    ensures
        r.dir@ == output_dir(text_view(*wanted), text_view(input.parent)),
        r.name@ == input_stem(text_view(input.file_name)) + ending@,
{
    OutputPath {
        dir: out_dir_for(wanted, input),
        name: concat2(input.file_stem().as_str(), ending),
    }
}

} // verus!
