//! What breaking lines keeps and what it guarantees.

use vstd::prelude::*;

use crate::srt::wrap;
use crate::text::{piece_laws, pieces, spaces};

verus! {

/// The characters of a text other than white space.
pub open spec fn inked(s: Seq<char>) -> Seq<char>
    decreases s.len(),
{
    if s.len() == 0 {
        Seq::empty()
    } else if spaces::is_white(s.last()) {
        inked(s.drop_last())
    } else {
        inked(s.drop_last()).push(s.last())
    }
}

pub proof fn lemma_inked_add(a: Seq<char>, b: Seq<char>)
    ensures
        inked(a + b) == inked(a) + inked(b),
    decreases b.len(),
{
    if b.len() == 0 {
        assert(a + b =~= a);
        assert(inked(a) + inked(b) =~= inked(a));
    } else {
        assert((a + b).drop_last() =~= a + b.drop_last());
        lemma_inked_add(a, b.drop_last());
        assert(inked(a + b) =~= inked(a) + inked(b));
    }
}

pub proof fn lemma_inked_white(s: Seq<char>)
    requires
        spaces::all_white(s),
    ensures
        inked(s) == Seq::<char>::empty(),
    decreases s.len(),
{
    if s.len() > 0 {
        assert(spaces::is_white(s[s.len() - 1]));
        lemma_inked_white(s.drop_last());
    }
}

/// Trimming takes white space only.
pub proof fn lemma_inked_trim(s: Seq<char>)
    ensures
        inked(spaces::trim_end(s)) == inked(s),
        inked(spaces::trim_start(s)) == inked(s),
        inked(spaces::trim(s)) == inked(s),
{
    lemma_inked_trim_end(s);
    lemma_inked_trim_end(spaces::trim_start(s));
    spaces::lemma_trim_start(s);
    let k = s.len() - spaces::trim_start(s).len();
    assert(s =~= s.take(k) + s.skip(k));
    lemma_inked_white(s.take(k));
    lemma_inked_add(s.take(k), s.skip(k));
    assert(Seq::<char>::empty() + inked(s.skip(k)) =~= inked(s.skip(k)));
}

proof fn lemma_inked_trim_end(s: Seq<char>)
    ensures
        inked(spaces::trim_end(s)) == inked(s),
{
    spaces::lemma_trim_end(s);
    let k = spaces::trim_end(s).len() as int;
    assert(s =~= s.take(k) + s.skip(k));
    lemma_inked_white(s.skip(k));
    lemma_inked_add(s.take(k), s.skip(k));
    assert(inked(s.take(k)) + Seq::<char>::empty() =~= inked(s.take(k)));
}

/// The characters other than white space of a list of lines.
spec fn lines_inked(lines: Seq<Seq<char>>) -> Seq<char> {
    inked(pieces::join(lines, seq!['\n']))
}

proof fn lemma_lines_inked_push(lines: Seq<Seq<char>>, line: Seq<char>)
    ensures
        lines_inked(lines.push(line)) == lines_inked(lines) + inked(line),
{
    let all = lines.push(line);
    assert(all.drop_last() =~= lines);
    let n = seq!['\n'];
    if lines.len() == 0 {
        assert(Seq::<char>::empty() + inked(line) =~= inked(line));
    } else {
        let front = pieces::join(lines, n);
        lemma_inked_add(front + n, line);
        lemma_inked_add(front, n);
        assert(spaces::all_white(n));
        lemma_inked_white(n);
        assert(inked(front) + Seq::<char>::empty() =~= inked(front));
    }
}

proof fn lemma_lines_inked_add(a: Seq<Seq<char>>, b: Seq<Seq<char>>)
    ensures
        lines_inked(a + b) == lines_inked(a) + lines_inked(b),
    decreases b.len(),
{
    if b.len() == 0 {
        assert(a + b =~= a);
        assert(lines_inked(a) + lines_inked(b) =~= lines_inked(a));
    } else {
        let c = b.drop_last();
        assert(a + b =~= (a + c).push(b.last()));
        assert(b =~= c.push(b.last()));
        lemma_lines_inked_add(a, c);
        lemma_lines_inked_push(a + c, b.last());
        lemma_lines_inked_push(c, b.last());
        assert(lines_inked(a) + lines_inked(c) + inked(b.last()) =~= lines_inked(a) + (lines_inked(c)
            + inked(b.last())));
    }
}

proof fn lemma_kept_line(line: Seq<char>, room: int)
    requires
        piece_laws::lacks(line, '\n'),
        wrap::width(line) <= room,
    ensures
        lines_inked(wrap::kept_line(line)) == inked(line),
        forall|i: int|
            0 <= i < wrap::kept_line(line).len() ==> good_line(
                #[trigger] wrap::kept_line(line)[i],
                room,
            ),
{
    spaces::lemma_blank(line);
    if spaces::trim(line).len() == 0 {
        lemma_inked_white(line);
    } else {
        let t = spaces::trim_end(line);
        spaces::lemma_trim_end(line);
        lemma_inked_trim(line);
        wrap::lemma_width_take(line, t.len() as int);
        assert(pieces::join(seq![t], seq!['\n']) == t);
        assert forall|i: int| 0 <= i < t.len() implies #[trigger] t[i] != '\n' by {
            assert(t[i] == line[i]);
        }
    }
}

/// A line that fits: at most `room` columns, no line break inside, and text at its end.
pub open spec fn good_line(line: Seq<char>, room: int) -> bool {
    &&& wrap::width(line) <= room
    &&& line.len() > 0
    &&& !spaces::is_white(line.last())
    &&& piece_laws::lacks(line, '\n')
}

proof fn lemma_wrapped_lines(s: Seq<char>, room: int)
    requires
        room >= 4,
        piece_laws::lacks(s, '\n'),
    ensures
        lines_inked(wrap::wrapped_lines(s, room)) == inked(s),
        forall|i: int|
            0 <= i < wrap::wrapped_lines(s, room).len() ==> good_line(
                #[trigger] wrap::wrapped_lines(s, room)[i],
                room,
            ),
    decreases s.len(),
{
    wrap::lemma_fitting(s, room);
    let end = wrap::fitting(s, room) as int;
    if end >= s.len() {
        assert(s.take(end) =~= s);
        lemma_kept_line(s, room);
    } else {
        wrap::lemma_last_break(s.take(end));
        let cut = wrap::line_end(s, room) as int;
        let head = s.take(cut);
        let tail = s.skip(cut);
        let rest = spaces::trim_start(tail);
        spaces::lemma_trim_start(tail);
        assert(s.take(end).take(cut) =~= head);
        wrap::lemma_width_take(s.take(end), cut);
        assert forall|i: int| 0 <= i < head.len() implies #[trigger] head[i] != '\n' by {
            assert(head[i] == s[i]);
        }
        assert forall|i: int| 0 <= i < rest.len() implies #[trigger] rest[i] != '\n' by {
            assert(rest[i] == s[s.len() - rest.len() + i]);
        }
        lemma_kept_line(head, room);
        lemma_wrapped_lines(rest, room);
        lemma_inked_trim(tail);
        lemma_inked_add(head, tail);
        assert(head + tail =~= s);
        let a = wrap::kept_line(head);
        let b = wrap::wrapped_lines(rest, room);
        lemma_lines_inked_add(a, b);
        assert forall|i: int| 0 <= i < (a + b).len() implies good_line(
            #[trigger] (a + b)[i],
            room,
        ) by {
            if i < a.len() {
                assert((a + b)[i] == a[i]);
            } else {
                assert((a + b)[i] == b[i - a.len()]);
            }
        }
    }
}

proof fn lemma_paragraphs(list: Seq<Seq<char>>, room: int)
    requires
        room >= 4,
        forall|i: int| 0 <= i < list.len() ==> piece_laws::lacks(#[trigger] list[i], '\n'),
    ensures
        lines_inked(wrap::paragraphs_wrapped(list, room)) == lines_inked(list),
        forall|i: int|
            0 <= i < wrap::paragraphs_wrapped(list, room).len() ==> good_line(
                #[trigger] wrap::paragraphs_wrapped(list, room)[i],
                room,
            ),
    decreases list.len(),
{
    if list.len() > 0 {
        let front = list.drop_last();
        let last = list.last();
        assert forall|i: int| 0 <= i < front.len() implies piece_laws::lacks(
            #[trigger] front[i],
            '\n',
        ) by {
            assert(front[i] == list[i]);
        }
        assert(piece_laws::lacks(list[list.len() - 1], '\n'));
        lemma_paragraphs(front, room);
        lemma_wrapped_lines(last, room);
        let a = wrap::paragraphs_wrapped(front, room);
        let b = wrap::wrapped_lines(last, room);
        lemma_lines_inked_add(a, b);
        assert(list =~= front.push(last));
        lemma_lines_inked_push(front, last);
        assert forall|i: int| 0 <= i < (a + b).len() implies good_line(
            #[trigger] (a + b)[i],
            room,
        ) by {
            if i < a.len() {
                assert((a + b)[i] == a[i]);
            } else {
                assert((a + b)[i] == b[i - a.len()]);
            }
        }
    }
}

/// Every line of a text fits.
pub proof fn lemma_text_lines(text: Seq<char>, max_width: int)
    ensures
        forall|i: int|
            0 <= i < wrap::text_lines(text, max_width).len() ==> good_line(
                #[trigger] wrap::text_lines(text, max_width)[i],
                wrap::room_for(max_width),
            ),
{
    piece_laws::lemma_split_lines(text, '\n');
    lemma_paragraphs(pieces::split(text, seq!['\n']), wrap::room_for(max_width));
}

/// Breaking lines loses no character and adds none, white space apart.
pub proof fn law_wrap_keeps_text(text: Seq<char>, max_width: int)
    ensures
        inked(wrap::wrapped(text, max_width)) == inked(text),
{
    let parts = pieces::split(text, seq!['\n']);
    piece_laws::lemma_split_lines(text, '\n');
    lemma_paragraphs(parts, wrap::room_for(max_width));
    piece_laws::law_split_join(text, seq!['\n']);
}

/// Every line of a text with its lines broken fits into the columns, and none but the only line of
/// an empty text is empty or ends with white space.
pub proof fn law_wrap_fits(text: Seq<char>, max_width: int)
    ensures
        ({
            let lines = pieces::split(wrap::wrapped(text, max_width), seq!['\n']);
            forall|i: int|
                0 <= i < lines.len() ==> {
                    let line = #[trigger] lines[i];
                    &&& wrap::width(line) <= wrap::room_for(max_width)
                    &&& wrap::wrapped(text, max_width).len() > 0 ==> line.len() > 0
                        && !spaces::is_white(line.last())
                }
        }),
{
    let room = wrap::room_for(max_width);
    lemma_text_lines(text, max_width);
    let lines = wrap::text_lines(text, max_width);
    if lines.len() == 0 {
        piece_laws::lemma_split_lacking(Seq::<char>::empty(), '\n');
        assert(wrap::width(Seq::<char>::empty()) == 0);
    } else {
        assert forall|i: int| 0 <= i < lines.len() implies piece_laws::lacks(
            #[trigger] lines[i],
            '\n',
        ) by {
            assert(good_line(lines[i], room));
        }
        piece_laws::law_join_split(lines, '\n');
    }
}

/// A line that fits stays one line.
proof fn lemma_good_line_stays(line: Seq<char>, room: int)
    requires
        good_line(line, room),
    ensures
        wrap::wrapped_lines(line, room) == seq![line],
{
    let n = line.len() as int;
    assert(line.take(n) =~= line);
    wrap::lemma_fitting_from(line, room, n);
    spaces::lemma_blank(line);
    assert(spaces::trim_end(line) == line);
}

proof fn lemma_good_lines_stay(lines: Seq<Seq<char>>, room: int)
    requires
        forall|i: int| 0 <= i < lines.len() ==> good_line(#[trigger] lines[i], room),
    ensures
        wrap::paragraphs_wrapped(lines, room) == lines,
    decreases lines.len(),
{
    if lines.len() > 0 {
        let front = lines.drop_last();
        assert forall|i: int| 0 <= i < front.len() implies good_line(#[trigger] front[i], room) by {
            assert(front[i] == lines[i]);
        }
        lemma_good_lines_stay(front, room);
        assert(good_line(lines[lines.len() - 1], room));
        lemma_good_line_stays(lines.last(), room);
        assert(front + seq![lines.last()] =~= lines);
    }
}

/// Breaking the lines of a text whose lines are broken changes nothing.
pub proof fn law_wrap_twice(text: Seq<char>, max_width: int)
    ensures
        wrap::wrapped(wrap::wrapped(text, max_width), max_width) == wrap::wrapped(text, max_width),
{
    let room = wrap::room_for(max_width);
    lemma_text_lines(text, max_width);
    let lines = wrap::text_lines(text, max_width);
    if lines.len() == 0 {
        let none = Seq::<char>::empty();
        piece_laws::lemma_split_lacking(none, '\n');
        let parts = pieces::split(none, seq!['\n']);
        assert(parts.drop_last() =~= Seq::<Seq<char>>::empty());
        spaces::lemma_blank(none);
        assert(wrap::wrapped_lines(none, room) =~= Seq::<Seq<char>>::empty());
        assert(parts.last() == none);
        assert(wrap::paragraphs_wrapped(parts.drop_last(), room) =~= Seq::<Seq<char>>::empty());
        assert(wrap::paragraphs_wrapped(parts, room) =~= Seq::<Seq<char>>::empty());
    } else {
        assert forall|i: int| 0 <= i < lines.len() implies piece_laws::lacks(
            #[trigger] lines[i],
            '\n',
        ) by {
            assert(good_line(lines[i], room));
        }
        piece_laws::law_join_split(lines, '\n');
        lemma_good_lines_stay(lines, room);
    }
}

} // verus!
