//! How the blocks of a file are read.

use vstd::prelude::*;

use crate::srt::{file, timestamp};
use crate::text::{piece_laws, pieces, space_laws, spaces};
use crate::types::SegmentView;

verus! {

proof fn lemma_lines_cons(line: Seq<char>, rest: Seq<char>)
    requires
        piece_laws::lacks(line, '\n'),
    ensures
        file::block_lines(line + seq!['\n'] + rest) == seq![spaces::trim_end(line)]
            + file::block_lines(rest),
{
    piece_laws::lemma_split_at(line, '\n', rest);
    assert(file::block_lines(line + seq!['\n'] + rest) =~= seq![spaces::trim_end(line)]
        + file::block_lines(rest));
}

proof fn lemma_arrow_first(first: Seq<char>, rest: Seq<Seq<char>>)
    ensures
        file::arrow_line(seq![first] + rest) == (if pieces::find(first, file::arrow()) is Some {
            Some(0int)
        } else {
            match file::arrow_line(rest) {
                Some(k) => Some(k + 1),
                None => None,
            }
        }),
{
    let all = seq![first] + rest;
    assert(all[0] == first);
    assert(all.drop_first() =~= rest);
}

proof fn lemma_arrow_line(lines: Seq<Seq<char>>)
    ensures
        match file::arrow_line(lines) {
            Some(k) => 0 <= k < lines.len(),
            None => true,
        },
    decreases lines.len(),
{
    if lines.len() > 0 {
        lemma_arrow_line(lines.drop_first());
    }
}

/// A line without an arrow before the times of a block makes no difference, whether it is a number or
/// not.
pub proof fn law_lines_before_the_times_are_passed_over(line: Seq<char>, rest: Seq<char>)
    requires
        piece_laws::lacks(line, '\n'),
        piece_laws::lacks(line, '>'),
    ensures
        file::block_cue(line + seq!['\n'] + rest) == file::block_cue(rest),
{
    reveal(file::block_cue);
    lemma_lines_cons(line, rest);
    let first = spaces::trim_end(line);
    spaces::lemma_trim_end(line);
    let arrow = file::arrow();
    pieces::lemma_find(first, arrow);
    if let Some(i) = pieces::find(first, arrow) {
        assert(first.subrange(i, i + 3)[2] == '>');
        assert(first[i + 2] == line[i + 2]);
    }
    let lines = file::block_lines(rest);
    let all = seq![first] + lines;
    lemma_arrow_first(first, lines);
    lemma_arrow_line(lines);
    if let Some(k) = file::arrow_line(lines) {
        assert(all[k + 1] == lines[k]);
        assert(all.skip(k + 2) =~= lines.skip(k + 1));
    }
}

/// A block of two times and one line of text is a subtitle exactly if both times can be read and the
/// line is not blank: it has the start, the text without the white space around it, and the end, or
/// one millisecond where the end is not after the start.
pub proof fn law_blocks_are_read(a: Seq<char>, b: Seq<char>, text: Seq<char>)
    requires
        piece_laws::lacks(a, '\n') && piece_laws::lacks(a, '-'),
        piece_laws::lacks(b, '\n'),
        piece_laws::lacks(text, '\n'),
    ensures
        ({
            let block = a + seq!['-', '-', '>'] + b + seq!['\n'] + text;
            let start = timestamp::ts_value(spaces::trim(a));
            let end = timestamp::ts_value(spaces::trim(b));
            let read = file::block_cue(block);
            &&& read is Some <==> start is Some && end is Some && !spaces::all_white(text)
            &&& read matches Some(c) ==> {
                &&& c.start_ms == start.unwrap()
                &&& end.unwrap() > start.unwrap() ==> c.end_ms == end.unwrap()
                &&& end.unwrap() <= start.unwrap() ==> c.end_ms == start.unwrap() + 1
                &&& c.text == spaces::trim(text)
            }
        }),
{
    reveal(file::block_cue);
    let arrow = seq!['-', '-', '>'];
    let line = a + arrow + b;
    assert forall|i: int| 0 <= i < line.len() implies #[trigger] line[i] != '\n' by {
        if i < a.len() {
            assert(line[i] == a[i]);
        } else if i >= a.len() + 3 {
            assert(line[i] == b[i - a.len() - 3]);
        }
    }
    lemma_lines_cons(line, text);
    piece_laws::lemma_split_lacking(text, '\n');
    let first = spaces::trim_end(line);
    let last = spaces::trim_end(text);
    assert(file::block_lines(text) =~= seq![last]);
    let lines = file::block_lines(line + seq!['\n'] + text);
    lemma_arrow_first(first, seq![last]);
    lemma_times_line(a, b);
    assert(lines.skip(1) =~= seq![last]);
    assert(seq![last].drop_last() =~= Seq::<Seq<char>>::empty());
    space_laws::lemma_trim_after_trim_end(text);
    spaces::lemma_blank(text);
    let body = file::clean_lines(seq![last]);
    assert(seq![last].last() == last);
    assert(file::clean_lines(seq![last].drop_last()) =~= Seq::<Seq<char>>::empty());
    if spaces::trim(text).len() > 0 {
        assert(body =~= seq![spaces::trim(text)]);
        assert(pieces::join(body, seq!['\n']) == spaces::trim(text));
    } else {
        assert(body =~= Seq::<Seq<char>>::empty());
    }
}

proof fn lemma_times_line(a: Seq<char>, b: Seq<char>)
    requires
        piece_laws::lacks(a, '-'),
    ensures
        ({
            let line = spaces::trim_end(a + seq!['-', '-', '>'] + b);
            &&& pieces::find(line, file::arrow()) is Some
            &&& pieces::split_once(line, file::arrow()) == Some((a, spaces::trim_end(b)))
            &&& spaces::trim(spaces::trim_end(b)) == spaces::trim(b)
        }),
{
    let arrow = seq!['-', '-', '>'];
    let head = a + arrow;
    spaces::lemma_trim_end(b);
    let t = spaces::trim_end(b);
    let n = t.len() as int;
    let line = head + t;
    assert(line.len() > 0);
    assert(!spaces::is_white(line.last())) by {
        if n > 0 {
            assert(line.last() == t.last());
        } else {
            assert(line.last() == '>');
        }
    }
    space_laws::lemma_trim_back(line, b.skip(n));
    assert(line + b.skip(n) =~= a + arrow + b) by {
        assert(t + b.skip(n) =~= b);
    }
    assert(line == a + arrow + t);
    assert forall|j: int| 0 <= j < a.len() implies !#[trigger] pieces::starts_with(
        line.skip(j),
        arrow,
    ) by {
        if pieces::starts_with(line.skip(j), arrow) {
            assert(line.skip(j).take(3)[0] == '-');
            assert(line[j] == a[j]);
        }
    }
    assert(line.skip(a.len() as int).take(3) =~= arrow);
    pieces::lemma_find_is(line, arrow, a.len() as int);
    assert(line.take(a.len() as int) =~= a);
    assert(line.skip(a.len() as int + 3) =~= t);
    space_laws::lemma_trim_after_trim_end(b);
}

proof fn lemma_lines_push(block: Seq<char>, line: Seq<char>)
    requires
        piece_laws::lacks(line, '\n'),
    ensures
        file::block_lines(block + seq!['\n'] + line) == file::block_lines(block).push(
            spaces::trim_end(line),
        ),
{
    let n = seq!['\n'];
    let parts = pieces::split(block, n);
    piece_laws::lemma_split_lines(block, '\n');
    piece_laws::law_split_join(block, n);
    let all = parts.push(line);
    assert forall|i: int| 0 <= i < all.len() implies piece_laws::lacks(#[trigger] all[i], '\n') by {
        if i < parts.len() {
            assert(all[i] == parts[i]);
        }
    }
    assert(all.drop_last() =~= parts);
    assert(parts.len() > 0);
    assert(pieces::join(all, n) == block + n + line);
    piece_laws::law_join_split(all, '\n');
    assert(file::block_lines(block + n + line) =~= file::block_lines(block).push(
        spaces::trim_end(line),
    ));
}

proof fn lemma_arrow_stays(lines: Seq<Seq<char>>, more: Seq<char>)
    requires
        file::arrow_line(lines) is Some,
    ensures
        file::arrow_line(lines.push(more)) == file::arrow_line(lines),
    decreases lines.len(),
{
    let all = lines.push(more);
    assert(all[0] == lines[0]);
    if pieces::find(lines[0], file::arrow()) is None {
        assert(all.drop_first() =~= lines.drop_first().push(more));
        lemma_arrow_stays(lines.drop_first(), more);
    }
}

/// One more line of text goes below the others, without the white space around it; a blank one makes
/// no difference.
pub proof fn law_lines_of_text_are_kept(block: Seq<char>, line: Seq<char>)
    requires
        piece_laws::lacks(line, '\n'),
        file::block_cue(block) is Some,
    ensures
        ({
            let before = file::block_cue(block).unwrap();
            let after = file::block_cue(block + seq!['\n'] + line);
            &&& after is Some
            &&& after.unwrap().start_ms == before.start_ms
            &&& after.unwrap().end_ms == before.end_ms
            &&& after.unwrap().text == (if spaces::all_white(line) {
                before.text
            } else {
                before.text + seq!['\n'] + spaces::trim(line)
            })
        }),
{
    reveal(file::block_cue);
    lemma_lines_push(block, line);
    let lines = file::block_lines(block);
    let last = spaces::trim_end(line);
    let all = lines.push(last);
    lemma_arrow_line(lines);
    lemma_arrow_stays(lines, last);
    let k = file::arrow_line(lines).unwrap();
    assert(all[k] == lines[k]);
    let below = lines.skip(k + 1);
    assert(all.skip(k + 1) =~= below.push(last));
    assert(below.push(last).drop_last() =~= below);
    space_laws::lemma_trim_after_trim_end(line);
    spaces::lemma_blank(line);
    let body = file::clean_lines(below);
    if !spaces::all_white(line) {
        assert(file::clean_lines(below.push(last)) == body.push(spaces::trim(line)));
        assert(body.push(spaces::trim(line)).drop_last() =~= body);
    }
}

/// A block with no line of two times says nothing, and neither does one without text below them; such
/// blocks are passed over, and the others are numbered in their order.
pub proof fn law_blocks_are_numbered(list: Seq<Seq<char>>, block: Seq<char>)
    ensures
        file::block_cues(Seq::empty()) == Seq::<SegmentView>::empty(),
        file::block_cue(block) is None ==> file::block_cues(list.push(block)) == file::block_cues(
            list,
        ),
        file::block_cue(block) matches Some(b) ==> {
            let before = file::block_cues(list);
            let after = file::block_cues(list.push(block));
            &&& after.len() == before.len() + 1
            &&& after.drop_last() == before
            &&& after.last().index == before.len() + 1
            &&& after.last().start_ms == b.start_ms
            &&& after.last().end_ms == b.end_ms
            &&& after.last().text == b.text
        },
{
    assert(list.push(block).drop_last() =~= list);
    if let Some(b) = file::block_cue(block) {
        assert(file::block_cues(list.push(block)).drop_last() =~= file::block_cues(list));
    }
}

/// Blocks are parted by an empty line. `a` has none, nor a line break at its end.
pub proof fn law_empty_lines_part_blocks(a: Seq<char>, b: Seq<char>)
    requires
        piece_laws::lacks(a, '\r') && piece_laws::lacks(b, '\r'),
        piece_laws::lacks_pair(a, '\n', '\n'),
        a.len() > 0 ==> a.last() != '\n',
    ensures
        file::blocks(a + seq!['\n', '\n'] + b) == seq![a] + file::blocks(b),
        file::blocks(a) == seq![a],
{
    let all = a + seq!['\n', '\n'] + b;
    lemma_no_returns(a);
    lemma_no_returns(b);
    assert(piece_laws::lacks(all, '\r')) by {
        assert forall|i: int| 0 <= i < all.len() implies #[trigger] all[i] != '\r' by {
            if i < a.len() {
                assert(all[i] == a[i]);
            } else if i >= a.len() + 2 {
                assert(all[i] == b[i - a.len() - 2]);
            }
        }
    }
    lemma_no_returns(all);
    piece_laws::lemma_split_at_pair(a, '\n', b);
    piece_laws::lemma_split_lacking_pair(a, '\n', '\n');
}

proof fn lemma_no_returns(s: Seq<char>)
    requires
        piece_laws::lacks(s, '\r'),
    ensures
        pieces::replaced(s, seq!['\r', '\n'], seq!['\n']) == s,
{
    piece_laws::lemma_split_lacking_pair(s, '\r', '\n');
}

/// Every subtitle is written as its number in the file, a line with its times, its text without the
/// white space around it, and an empty line.
pub proof fn law_subtitles_are_written(list: Seq<SegmentView>, s: SegmentView)
    ensures
        file::rendered(Seq::empty()) == Seq::<char>::empty(),
        file::rendered(list.push(s)) == file::rendered(list) + (crate::text::number::decimal(
            list.len() + 1,
        ) + "\n"@ + timestamp::timestamp(s.start_ms as nat) + " --> "@ + timestamp::timestamp(
            s.end_ms as nat,
        ) + "\n"@ + spaces::trim(s.text) + "\n\n"@),
{
    reveal_strlit("\n");
    reveal_strlit("\n\n");
    assert("\n"@ =~= seq!['\n']);
    assert("\n\n"@ =~= seq!['\n', '\n']);
    assert(list.push(s).drop_last() =~= list);
}

} // verus!
