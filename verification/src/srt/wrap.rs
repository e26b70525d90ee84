//! Display width and line breaking.

use vstd::prelude::*;

use crate::text::chars::{chars_of, string_of};
use crate::text::pieces::{join_texts, split_in};
use crate::text::spaces::{is_whitespace, trim_end_of, trim_of};
use crate::text::{chars, pieces, spaces};

verus! {

/// The columns that a character takes: two for the characters of East Asian scripts and their
/// full-width forms, one for every other.
pub open spec fn width_of(c: char) -> nat {
    let u = c as u32;
    let wide = {
        ||| 0x1100 <= u <= 0x115f
        ||| 0x2e80 <= u <= 0xa4cf
        ||| 0xac00 <= u <= 0xd7a3
        ||| 0xf900 <= u <= 0xfaff
        ||| 0xfe30 <= u <= 0xfe6f
        ||| 0xff00 <= u <= 0xff60
        ||| 0xffe0 <= u <= 0xffe6
        ||| 0x1b000 <= u <= 0x1b16f
        ||| 0x20000 <= u <= 0x3fffd
    };
    if wide {
        2
    } else {
        1
    }
}

/// The columns that a text takes.
pub open spec fn width(s: Seq<char>) -> nat
    decreases s.len(),
{
    if s.len() == 0 {
        0
    } else {
        width(s.drop_last()) + width_of(s.last())
    }
}

/// The columns that a character takes.
pub fn char_width(c: char) -> (w: usize)
    ensures
        w == width_of(c),
{
    let u: u32 = c as u32;
    let wide: bool = matches!(u,
        0x1100..=0x115F | 0x2E80..=0xA4CF | 0xAC00..=0xD7A3
        | 0xF900..=0xFAFF | 0xFE30..=0xFE6F | 0xFF00..=0xFF60 | 0xFFE0..=0xFFE6
        | 0x1B000..=0x1B16F | 0x20000..=0x3FFFD);
    if wide {
        2
    } else {
        1
    }
}

pub proof fn lemma_width_take(s: Seq<char>, k: int)
    requires
        0 <= k <= s.len(),
    ensures
        width(s.take(k)) <= width(s),
    decreases s.len() - k,
{
    if k < s.len() {
        lemma_width_take(s, k + 1);
        assert(s.take(k + 1).drop_last() =~= s.take(k));
    } else {
        assert(s.take(k) =~= s);
    }
}

/// The columns that a text takes.
pub fn display_width(s: &str) -> (w: usize)
    requires
        width(s@) <= usize::MAX,
    ensures
        w == width(s@),
{
    let v = chars_of(s);
    let n: usize = v.len();
    let mut w: usize = 0;
    for i in 0..n
        invariant
            n == v@.len(),
            v@ == s@,
            width(s@) <= usize::MAX,
            w == width(s@.take(i as int)),
    {
        proof {
            lemma_width_take(s@, i + 1);
            assert(s@.take(i + 1).drop_last() =~= s@.take(i as int));
        }
        w = w + char_width(v[i]);
    }
    assert(s@.take(n as int) =~= s@);
    w
}

/// A line may end after this character: punctuation and the space.
pub open spec fn breaks_after(c: char) -> bool {
    ||| c == '。'
    ||| c == '！'
    ||| c == '？'
    ||| c == '，'
    ||| c == '、'
    ||| c == '；'
    ||| c == '：'
    ||| c == '」'
    ||| c == '』'
    ||| c == '）'
    ||| c == '》'
    ||| c == '…'
    ||| c == '.'
    ||| c == '!'
    ||| c == '?'
    ||| c == ','
    ||| c == ';'
    ||| c == ':'
    ||| c == ')'
    ||| c == ' '
}

/// Whether a line may end after this character.
pub fn is_break_after(c: char) -> (r: bool)
    ensures
        r == breaks_after(c),
{
    matches!(c,
        '。' | '！' | '？' | '，' | '、' | '；' | '：' | '」' | '』' | '）' | '》' | '…'
        | '.' | '!' | '?' | ',' | ';' | ':' | ')' | ' '
    )
}

/// How many characters from the start of `s` fit into `room` columns.
pub open spec fn fitting(s: Seq<char>, room: int) -> nat
    decreases s.len(),
{
    if s.len() == 0 || width_of(s[0]) > room {
        0
    } else {
        1 + fitting(s.drop_first(), room - width_of(s[0]))
    }
}

/// The position after the last character of `s` that a line may end with; zero if there is none.
pub open spec fn last_break(s: Seq<char>) -> nat
    decreases s.len(),
{
    if s.len() == 0 {
        0
    } else if breaks_after(s.last()) {
        s.len()
    } else {
        last_break(s.drop_last())
    }
}

/// Where the first line of a text that is too wide ends: after the last break that fits, or, where
/// there is none, after the last character that fits.
pub open spec fn line_end(s: Seq<char>, room: int) -> nat {
    let end = fitting(s, room);
    let b = last_break(s.take(end as int));
    if b > 0 {
        b
    } else {
        end
    }
}

/// The line as a list of lines: blank lines are left out, others lose the white space at the end.
pub open spec fn kept_line(line: Seq<char>) -> Seq<Seq<char>> {
    if spaces::trim(line).len() == 0 {
        Seq::empty()
    } else {
        seq![spaces::trim_end(line)]
    }
}

/// The lines of a paragraph, each as full as `room` columns allow. White space at a line's end and
/// at the start of the next one goes.
pub open spec fn wrapped_lines(s: Seq<char>, room: int) -> Seq<Seq<char>>
    decreases s.len(),
{
    if fitting(s, room) >= s.len() {
        kept_line(s)
    } else {
        let cut = line_end(s, room);
        let rest = spaces::trim_start(s.skip(cut as int));
        if 0 < cut && rest.len() < s.len() {
            kept_line(s.take(cut as int)) + wrapped_lines(rest, room)
        } else {
            Seq::empty()
        }
    }
}

/// The lines of the first `k` paragraphs.
pub open spec fn paragraphs_wrapped(paragraphs: Seq<Seq<char>>, room: int) -> Seq<Seq<char>>
    decreases paragraphs.len(),
{
    if paragraphs.len() == 0 {
        Seq::empty()
    } else {
        paragraphs_wrapped(paragraphs.drop_last(), room) + wrapped_lines(paragraphs.last(), room)
    }
}

/// The columns of a line: never fewer than four.
pub open spec fn room_for(max_width: int) -> int {
    if max_width < 4 {
        4
    } else {
        max_width
    }
}

/// The lines of a text.
pub open spec fn text_lines(text: Seq<char>, max_width: int) -> Seq<Seq<char>> {
    paragraphs_wrapped(pieces::split(text, seq!['\n']), room_for(max_width))
}

/// A text with its lines broken.
pub open spec fn wrapped(text: Seq<char>, max_width: int) -> Seq<char> {
    pieces::join(text_lines(text, max_width), seq!['\n'])
}

/// Facts about the characters that fit.
pub proof fn lemma_fitting(s: Seq<char>, room: int)
    ensures
        fitting(s, room) <= s.len(),
        room >= 0 ==> width(s.take(fitting(s, room) as int)) <= room,
        room >= 2 && s.len() > 0 ==> fitting(s, room) > 0,
    decreases s.len(),
{
    if s.len() == 0 || width_of(s[0]) > room {
        assert(s.take(0) =~= Seq::<char>::empty());
    } else {
        let rest = s.drop_first();
        let r = room - width_of(s[0]);
        lemma_fitting(rest, r);
        let k = fitting(rest, r) as int;
        assert(s.take(k + 1) =~= seq![s[0]] + rest.take(k));
        lemma_width_add(seq![s[0]], rest.take(k));
        lemma_width_one(s[0]);
    }
}

proof fn lemma_width_one(c: char)
    ensures
        width(seq![c]) == width_of(c),
{
    assert(seq![c].drop_last() =~= Seq::<char>::empty());
    assert(width(Seq::<char>::empty()) == 0);
}

pub proof fn lemma_width_add(a: Seq<char>, b: Seq<char>)
    ensures
        width(a + b) == width(a) + width(b),
    decreases b.len(),
{
    if b.len() == 0 {
        assert(a + b =~= a);
    } else {
        assert((a + b).drop_last() =~= a + b.drop_last());
        lemma_width_add(a, b.drop_last());
    }
}

/// The search for the characters that fit can go on from any point that it has reached.
pub proof fn lemma_fitting_from(s: Seq<char>, room: int, k: int)
    requires
        0 <= k <= s.len(),
        width(s.take(k)) <= room,
    ensures
        fitting(s, room) == k + fitting(s.skip(k), room - width(s.take(k))),
    decreases s.len(),
{
    if k == 0 {
        assert(s.take(0) =~= Seq::<char>::empty());
        assert(s.skip(0) =~= s);
    } else {
        let rest = s.drop_first();
        assert(s.take(k) =~= seq![s[0]] + rest.take(k - 1));
        lemma_width_add(seq![s[0]], rest.take(k - 1));
        lemma_width_one(s[0]);
        assert(rest.skip(k - 1) =~= s.skip(k));
        lemma_fitting_from(rest, room - width_of(s[0]), k - 1);
    }
}

pub proof fn lemma_last_break(s: Seq<char>)
    ensures
        last_break(s) <= s.len(),
    decreases s.len(),
{
    if s.len() > 0 && !breaks_after(s.last()) {
        lemma_last_break(s.drop_last());
    }
}

/// The line break of a text that is too wide.
fn find_line_end(s: &[char], room: usize) -> (r: (usize, bool))
    requires
        room >= 4,
        s@.len() > 0,
    ensures
        r.1 == (fitting(s@, room as int) >= s@.len()),
        !r.1 ==> r.0 == line_end(s@, room as int),
        !r.1 ==> 0 < r.0 <= s@.len(),
{
    let n: usize = s.len();
    let mut end: usize = 0;
    let mut w: usize = 0;
    proof {
        assert(s@.take(0) =~= Seq::<char>::empty());
        lemma_fitting(s@, room as int);
    }
    while end < n
        invariant
            n == s@.len(),
            end <= n,
            w == width(s@.take(end as int)),
            w <= room,
            end == n ==> end == fitting(s@, room as int),
        ensures
            end == fitting(s@, room as int),
        decreases n - end,
    {
        let cw: usize = char_width(s[end]);
        proof {
            lemma_fitting_from(s@, room as int, end as int);
            assert(s@.skip(end as int)[0] == s@[end as int]);
        }
        if cw > room - w {
            break;
        }
        w = w + cw;
        end = end + 1;
        proof {
            assert(s@.take(end as int).drop_last() =~= s@.take(end - 1));
            if end == n {
                lemma_fitting_from(s@, room as int, end as int);
            }
        }
    }
    if end >= n {
        return (end, true);
    }
    let ghost head = s@.take(end as int);
    let mut k: usize = end;
    assert(head.take(k as int) =~= head);
    while k > 0
        invariant
            k <= end < n,
            n == s@.len(),
            head == s@.take(end as int),
            end == fitting(s@, room as int),
            last_break(head.take(k as int)) == last_break(head),
        decreases k,
    {
        assert(head.take(k as int).last() == s@[k - 1]);
        if is_break_after(s[k - 1]) {
            return (k, false);
        }
        assert(head.take(k as int).drop_last() =~= head.take(k - 1));
        k = k - 1;
    }
    (end, false)
}

/// Adds a line to the list unless it is blank.
fn keep_line(lines: &mut Vec<String>, line: &[char])
    ensures
        chars::views(final(lines)@) == chars::views(old(lines)@) + kept_line(line@),
{
    let ghost before = lines@;
    if trim_of(line).len() > 0 {
        let t = string_of(trim_end_of(line));
        lines.push(t);
        assert(chars::views(lines@) =~= chars::views(before) + kept_line(line@));
    } else {
        assert(chars::views(lines@) =~= chars::views(before) + kept_line(line@));
    }
}

/// Adds the lines of a paragraph to the list.
fn wrap_paragraph(lines: &mut Vec<String>, s: &[char], room: usize)
    requires
        room >= 4,
    ensures
        chars::views(final(lines)@) == chars::views(old(lines)@) + wrapped_lines(s@, room as int),
{
    let n: usize = s.len();
    let mut start: usize = 0;
    let ghost want = chars::views(lines@) + wrapped_lines(s@, room as int);
    assert(s@.skip(0) =~= s@);
    while start < n
        invariant
            n == s@.len(),
            start <= n,
            room >= 4,
            want == chars::views(old(lines)@) + wrapped_lines(s@, room as int),
            chars::views(lines@) + wrapped_lines(s@.skip(start as int), room as int) == want,
        decreases n - start,
    {
        let rest = &s[start..n];
        assert(rest@ =~= s@.skip(start as int));
        let (cut, whole) = find_line_end(rest, room);
        let ghost before = chars::views(lines@);
        if whole {
            keep_line(lines, rest);
            return;
        }
        keep_line(lines, &rest[0..cut]);
        assert(rest@.subrange(0, cut as int) =~= rest@.take(cut as int));
        let mut next: usize = start + cut;
        let ghost after = s@.skip(next as int);
        assert(after =~= rest@.skip(cut as int));
        while next < n && is_whitespace(s[next])
            invariant
                n == s@.len(),
                start < next <= n,
                spaces::trim_start(s@.skip(next as int)) == spaces::trim_start(after),
            decreases n - next,
        {
            assert(s@.skip(next as int)[0] == s@[next as int]);
            assert(s@.skip(next as int).drop_first() =~= s@.skip(next + 1));
            next = next + 1;
        }
        proof {
            let tail = s@.skip(next as int);
            if next < n {
                assert(tail[0] == s@[next as int]);
            }
            assert(spaces::trim_start(after) == tail);
            spaces::lemma_trim_start(after);
            let line = kept_line(rest@.take(cut as int));
            let more = wrapped_lines(tail, room as int);
            assert(wrapped_lines(rest@, room as int) == line + more);
            assert(before + line + more =~= before + (line + more));
        }
        start = next;
    }
    proof {
        assert(s@.skip(start as int) =~= Seq::<char>::empty());
        assert(wrapped_lines(Seq::<char>::empty(), room as int) =~= Seq::empty());
        assert(chars::views(lines@) + Seq::<Seq<char>>::empty() =~= chars::views(lines@));
    }
}

/// Breaks the lines of a text so that each fits into `max_width` columns, four at least.
///
/// Each line is as full as it can be, but ends with the last punctuation mark or space that fits,
/// if there is one. Blank lines and the white space around a line break go.
pub fn wrap_text(text: &str, max_width: usize) -> (r: String)
    ensures
        r@ == wrapped(text@, max_width as int),
{
    let room: usize = if max_width < 4 {
        4
    } else {
        max_width
    };
    let all = chars_of(text);
    let paragraphs = split_in(all.as_slice(), &['\n']);
    let mut lines: Vec<String> = Vec::new();
    let n: usize = paragraphs.len();
    let ghost parts = pieces::slices(paragraphs@);
    assert(['\n']@ =~= seq!['\n']);
    assert(chars::views(lines@) =~= paragraphs_wrapped(parts.take(0), room as int));
    for i in 0..n
        invariant
            n == paragraphs@.len(),
            parts == pieces::slices(paragraphs@),
            room >= 4,
            chars::views(lines@) == paragraphs_wrapped(parts.take(i as int), room as int),
    {
        wrap_paragraph(&mut lines, paragraphs[i], room);
        proof {
            let t = parts.take(i + 1);
            assert(t.drop_last() =~= parts.take(i as int));
            assert(t.last() == paragraphs@[i as int]@);
        }
    }
    assert(parts.take(n as int) =~= parts);
    proof {
        reveal_strlit("\n");
        assert("\n"@ =~= seq!['\n']);
    }
    join_texts(&lines, "\n")
}

} // verus!
