//! Paths as text, for either separator that a system may put between their parts.

use vstd::prelude::*;

use crate::text::chars;
use crate::text::chars::{chars_of, concat2, same_chars, same_text, string_of};
use crate::text::pieces;
use crate::text::pieces::{push_chars, split_in};

verus! {

/// The character that stands between the parts of a path on this system, which is
/// `std::path::MAIN_SEPARATOR`. It differs between systems, so nothing is said of which it is.
#[verifier::external_body]
pub(crate) fn main_separator() -> (r: char) {
    std::path::MAIN_SEPARATOR
}

/// Whether a character stands between the parts of a path: the separator of the system does, and a
/// slash does everywhere.
pub open spec fn separates(c: char, separator: char) -> bool {
    c == '/' || c == separator
}

/// Whether a path starts at the root.
pub open spec fn is_rooted(s: Seq<char>, separator: char) -> bool {
    s.len() > 0 && separates(s[0], separator)
}

/// The drive that a path starts with, where paths are parted by backslashes: a letter and a colon.
pub open spec fn drive_of(s: Seq<char>, separator: char) -> Seq<char> {
    if separator == '\\' && s.len() >= 2 && s[1] == ':' && ('a' <= s[0] <= 'z' || 'A' <= s[0]
        <= 'Z') {
        s.take(2)
    } else {
        Seq::empty()
    }
}

/// The path of a file in a directory. A separator is put between them unless the directory ends with
/// one or is empty or just a drive. A file at the root is not in the directory, though on its drive,
/// and neither is one on a drive of its own.
pub open spec fn file_in(dir: Seq<char>, file: Seq<char>, separator: char) -> Seq<char> {
    if drive_of(file, separator).len() > 0 {
        file
    } else if is_rooted(file, separator) {
        drive_of(dir, separator) + file
    } else if dir.len() == 0 || separates(dir.last(), separator) || dir == drive_of(
        dir,
        separator,
    ) {
        dir + file
    } else {
        dir + seq![separator] + file
    }
}

fn has_drive(s: &[char], separator: char) -> (r: bool)
    ensures
        r == (drive_of(s@, separator).len() > 0),
{
    separator == '\\' && s.len() >= 2 && s[1] == ':' && (('a' <= s[0] && s[0] <= 'z') || ('A' <= s[0]
        && s[0] <= 'Z'))
}

/// The path of a file in a directory.
pub fn path_of(dir: &str, file: &str, separator: char) -> (r: String)
    ensures
        r@ == file_in(dir@, file@, separator),
{
    let d = chars_of(dir);
    let f = chars_of(file);
    if has_drive(f.as_slice(), separator) {
        return file.to_string();
    }
    let on_drive: bool = has_drive(d.as_slice(), separator);
    let n: usize = d.len();
    if f.len() > 0 && (f[0] == '/' || f[0] == separator) {
        let mut r: Vec<char> = Vec::new();
        if on_drive {
            r.push(d[0]);
            r.push(d[1]);
        }
        assert(r@ =~= drive_of(dir@, separator));
        push_chars(&mut r, f.as_slice());
        return string_of(r.as_slice());
    }
    assert(n > 0 ==> (dir@ == drive_of(dir@, separator) <==> on_drive && n == 2)) by {
        assert(dir@.take(2) =~= dir@ || n != 2);
    }
    if n == 0 || d[n - 1] == '/' || d[n - 1] == separator || (on_drive && n == 2) {
        return concat2(dir, file);
    }
    let mut r: Vec<char> = d;
    r.push(separator);
    push_chars(&mut r, f.as_slice());
    assert(r@ =~= dir@ + seq![separator] + file@);
    string_of(r.as_slice())
}

/// A path with slashes for its separators.
pub open spec fn slashed(s: Seq<char>, separator: char) -> Seq<char> {
    s.map_values(
        |c: char|
            if separates(c, separator) {
                '/'
            } else {
                c
            },
    )
}

/// The parts that name something: not empty, and not the dot for the place where the path is.
pub open spec fn naming_parts(parts: Seq<Seq<char>>) -> Seq<Seq<char>>
    decreases parts.len(),
{
    if parts.len() == 0 {
        Seq::empty()
    } else {
        let front = naming_parts(parts.drop_last());
        if parts.last().len() == 0 || parts.last() == seq!['.'] {
            front
        } else {
            front.push(parts.last())
        }
    }
}

/// The parts of a path that name something.
pub open spec fn path_parts(s: Seq<char>, separator: char) -> Seq<Seq<char>> {
    naming_parts(pieces::split(slashed(s, separator), seq!['/']))
}

/// Whether a path starts with the dot for the current directory.
pub open spec fn starts_here(s: Seq<char>, separator: char) -> bool {
    s.len() > 0 && s[0] == '.' && (s.len() == 1 || separates(s[1], separator))
}

/// Whether two texts are the same path: they start at the same place and have the same parts.
/// Separators that repeat or end the path and dots inside it make no difference.
pub open spec fn same_path(a: Seq<char>, b: Seq<char>, separator: char) -> bool {
    &&& is_rooted(a, separator) == is_rooted(b, separator)
    &&& starts_here(a, separator) == starts_here(b, separator)
    &&& path_parts(a, separator) == path_parts(b, separator)
}

/// The parts of a path that name something.
fn parts_of(s: &str, separator: char) -> (r: Vec<String>)
    ensures
        chars::views(r@) == path_parts(s@, separator),
{
    let v = chars_of(s);
    let mut plain: Vec<char> = Vec::new();
    for i in 0..v.len()
        invariant
            v@ == s@,
            plain@.len() == i,
            forall|j: int| 0 <= j < i ==> #[trigger] plain@[j] == slashed(s@, separator)[j],
    {
        let c: char = v[i];
        plain.push(
            if c == '/' || c == separator {
                '/'
            } else {
                c
            },
        );
    }
    assert(plain@ =~= slashed(s@, separator));
    let slash: Vec<char> = vec!['/'];
    let dot: Vec<char> = vec!['.'];
    assert(slash@ =~= seq!['/']);
    assert(dot@ =~= seq!['.']);
    let parts = split_in(plain.as_slice(), slash.as_slice());
    let ghost all = pieces::slices(parts@);
    let mut out: Vec<String> = Vec::new();
    assert(chars::views(out@) =~= naming_parts(all.take(0)));
    for i in 0..parts.len()
        invariant
            all == pieces::slices(parts@),
            dot@ == seq!['.'],
            chars::views(out@) == naming_parts(all.take(i as int)),
    {
        let ghost before = chars::views(out@);
        assert(all.take(i + 1).drop_last() =~= all.take(i as int));
        assert(all.take(i + 1).last() == parts@[i as int]@);
        if parts[i].len() > 0 && !same_chars(parts[i], dot.as_slice()) {
            out.push(string_of(parts[i]));
            assert(chars::views(out@) =~= before.push(parts@[i as int]@));
        }
    }
    assert(all.take(parts@.len() as int) =~= all);
    out
}

/// Where a path starts: whether at the root, and whether with the dot for the current directory.
fn start_of(s: &str, separator: char) -> (r: (bool, bool))
    ensures
        r.0 == is_rooted(s@, separator),
        r.1 == starts_here(s@, separator),
{
    let v = chars_of(s);
    let rooted: bool = v.len() > 0 && (v[0] == '/' || v[0] == separator);
    let here: bool = v.len() > 0 && v[0] == '.' && (v.len() == 1 || v[1] == '/' || v[1]
        == separator);
    (rooted, here)
}

/// Whether two texts are the same path.
pub fn is_same_path(a: &str, b: &str, separator: char) -> (r: bool)
    ensures
        r == same_path(a@, b@, separator),
{
    let (a_rooted, a_here) = start_of(a, separator);
    let (b_rooted, b_here) = start_of(b, separator);
    if a_rooted != b_rooted || a_here != b_here {
        return false;
    }
    let x = parts_of(a, separator);
    let y = parts_of(b, separator);
    let ghost xs = chars::views(x@);
    let ghost ys = chars::views(y@);
    assert(xs.len() == x@.len() && ys.len() == y@.len());
    if x.len() != y.len() {
        return false;
    }
    for i in 0..x.len()
        invariant
            x@.len() == y@.len(),
            xs == chars::views(x@),
            ys == chars::views(y@),
            xs == path_parts(a@, separator),
            ys == path_parts(b@, separator),
            forall|j: int| 0 <= j < i ==> #[trigger] xs[j] == ys[j],
    {
        assert(xs[i as int] == x@[i as int]@ && ys[i as int] == y@[i as int]@);
        if !same_text(x[i].as_str(), y[i].as_str()) {
            return false;
        }
    }
    assert(xs =~= ys);
    true
}

} // verus!
