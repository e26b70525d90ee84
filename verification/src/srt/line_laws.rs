//! Where lines break and how wide characters are.

use vstd::prelude::*;

use crate::srt::{cue, wrap, wrap_laws};
use crate::text::{piece_laws, pieces, spaces};
use crate::types::SegmentView;

verus! {

/// Punctuation that a line may end with, or a space: the marks are 。！？，、；：」』）》….!?,;:).
pub open spec fn good_end(c: char) -> bool {
    seq![
        '。', '！', '？', '，', '、', '；', '：', '」', '』', '）', '》', '…',
        '.', '!', '?', ',', ';', ':', ')', ' ',
    ].contains(c)
}

/// A line may end after a character exactly if it is one of these.
pub proof fn law_marks_that_lines_end_with(c: char)
    ensures
        good_end(c) == wrap::breaks_after(c),
        wrap::breaks_after(c) <==> seq![
            '。', '！', '？', '，', '、', '；', '：', '」', '』', '）', '》', '…',
            '.', '!', '?', ',', ';', ':', ')', ' ',
        ].contains(c),
{
    let marks = seq![
        '。', '！', '？', '，', '、', '；', '：', '」', '』', '）', '》', '…',
        '.', '!', '?', ',', ';', ':', ')', ' ',
    ];
    assert(marks.len() == 20);
    assert(marks[0] == '。' && marks[1] == '！' && marks[2] == '？' && marks[3] == '，');
    assert(marks[4] == '、' && marks[5] == '；' && marks[6] == '：' && marks[7] == '」');
    assert(marks[8] == '』' && marks[9] == '）' && marks[10] == '》' && marks[11] == '…');
    assert(marks[12] == '.' && marks[13] == '!' && marks[14] == '?' && marks[15] == ',');
    assert(marks[16] == ';' && marks[17] == ':' && marks[18] == ')' && marks[19] == ' ');
}

proof fn lemma_last_good_end(s: Seq<char>)
    ensures
        wrap::last_break(s) <= s.len(),
        wrap::last_break(s) > 0 ==> good_end(s[wrap::last_break(s) - 1]),
        forall|i: int| wrap::last_break(s) <= i < s.len() ==> !good_end(#[trigger] s[i]),
    decreases s.len(),
{
    if s.len() > 0 {
        law_marks_that_lines_end_with(s.last());
        let front = s.drop_last();
        lemma_last_good_end(front);
        if !wrap::breaks_after(s.last()) {
            assert forall|i: int| wrap::last_break(s) <= i < s.len() implies !good_end(
                #[trigger] s[i],
            ) by {
                if i < front.len() {
                    assert(front[i] == s[i]);
                } else {
                    assert(s[i] == s.last());
                }
            }
            if wrap::last_break(s) > 0 {
                assert(front[wrap::last_break(s) - 1] == s[wrap::last_break(s) - 1]);
            }
        }
    }
}

/// One more character than fits is too wide.
proof fn lemma_fitting_is_most(s: Seq<char>, room: int)
    requires
        room >= 0,
        wrap::fitting(s, room) < s.len(),
    ensures
        wrap::width(s.take(wrap::fitting(s, room) as int)) <= room < wrap::width(
            s.take(wrap::fitting(s, room) as int + 1),
        ),
{
    wrap::lemma_fitting(s, room);
    let n = wrap::fitting(s, room) as int;
    wrap::lemma_fitting_from(s, room, n);
    assert(s.skip(n)[0] == s[n]);
    assert(s.take(n + 1).drop_last() =~= s.take(n));
    assert(s.take(n + 1).last() == s[n]);
}

/// A paragraph that is too wide breaks after the last mark or space in what fits of it, and where
/// there is none, where it is full. `n` is how many characters fit. The line loses the white space at
/// its end, and the rest that at its start; a blank line is left out.
pub proof fn law_lines_end_after_marks(s: Seq<char>, room: int, n: int)
    requires
        room >= 4,
        0 <= n < s.len(),
        wrap::width(s.take(n)) <= room < wrap::width(s.take(n + 1)),
    ensures
        exists|cut: int|
            {
                &&& 0 < cut <= n
                &&& (exists|i: int| 0 <= i < n && good_end(#[trigger] s[i])) ==> good_end(s[cut - 1])
                &&& (forall|i: int| 0 <= i < n ==> !good_end(#[trigger] s[i])) ==> cut == n
                &&& forall|i: int| cut <= i < n ==> !good_end(#[trigger] s[i])
                &&& wrap::wrapped_lines(s, room) == (if spaces::trim(s.take(cut)).len() == 0 {
                    Seq::empty()
                } else {
                    seq![spaces::trim_end(s.take(cut))]
                }) + wrap::wrapped_lines(#[trigger] spaces::trim_start(s.skip(cut)), room)
            },
{
    lemma_fits_exactly(s, room, n);
    wrap::lemma_fitting(s, room);
    let head = s.take(n);
    lemma_last_good_end(head);
    let cut = wrap::line_end(s, room) as int;
    assert forall|i: int| 0 <= i < n implies head[i] == #[trigger] s[i] by {}
    assert(forall|i: int| cut <= i < n ==> !good_end(#[trigger] s[i])) by {
        assert forall|i: int| cut <= i < n implies !good_end(#[trigger] s[i]) by {
            assert(head[i] == s[i]);
        }
    }
    if exists|i: int| 0 <= i < n && good_end(#[trigger] s[i]) {
        let i = choose|i: int| 0 <= i < n && good_end(#[trigger] s[i]);
        assert(head[i] == s[i]);
        assert(wrap::last_break(head) > 0);
        assert(head[cut - 1] == s[cut - 1]);
    }
    if forall|i: int| 0 <= i < n ==> !good_end(#[trigger] s[i]) {
        if wrap::last_break(head) > 0 {
            assert(head[wrap::last_break(head) - 1] == s[wrap::last_break(head) - 1]);
        }
    }
    let rest = spaces::trim_start(s.skip(cut));
    spaces::lemma_trim_start(s.skip(cut));
    assert(0 < cut && rest.len() < s.len());
}

proof fn lemma_fits_exactly(s: Seq<char>, room: int, n: int)
    requires
        room >= 4,
        0 <= n < s.len(),
        wrap::width(s.take(n)) <= room < wrap::width(s.take(n + 1)),
    ensures
        wrap::fitting(s, room) == n,
{
    wrap::lemma_fitting(s, room);
    let k = wrap::fitting(s, room) as int;
    if k < n {
        lemma_fitting_is_most(s, room);
        wrap::lemma_width_take(s.take(n), k + 1);
        assert(s.take(n).take(k + 1) =~= s.take(k + 1));
    }
    if k > n {
        wrap::lemma_width_take(s.take(k), n + 1);
        assert(s.take(k).take(n + 1) =~= s.take(n + 1));
    }
}

/// A paragraph that is not too wide stays on one line, without the white space at its end; a blank
/// one gives no line.
pub proof fn law_narrow_paragraphs_stay(s: Seq<char>, room: int)
    requires
        wrap::width(s) <= room,
    ensures
        wrap::wrapped_lines(s, room) == (if spaces::trim(s).len() == 0 {
            Seq::empty()
        } else {
            seq![spaces::trim_end(s)]
        }),
{
    let n = s.len() as int;
    assert(s.take(n) =~= s);
    wrap::lemma_fitting_from(s, room, n);
}

/// Each paragraph of a text is broken by itself, into lines of `max_width` columns or, if that is
/// less than four, of four.
pub proof fn law_paragraphs_are_broken_one_by_one(a: Seq<char>, b: Seq<char>, max_width: int)
    requires
        piece_laws::lacks(a, '\n'),
    ensures
        max_width >= 4 ==> wrap::text_lines(a, max_width) == wrap::wrapped_lines(a, max_width),
        max_width < 4 ==> wrap::text_lines(a, max_width) == wrap::wrapped_lines(a, 4),
        wrap::text_lines(a + seq!['\n'] + b, max_width) == wrap::text_lines(a, max_width)
            + wrap::text_lines(b, max_width),
        wrap::wrapped(b, max_width) == pieces::join(wrap::text_lines(b, max_width), seq!['\n']),
{
    let n = seq!['\n'];
    let room = wrap::room_for(max_width);
    piece_laws::lemma_split_lacking(a, '\n');
    lemma_paragraphs_one(a, room);
    let parts = pieces::split(b, n);
    piece_laws::lemma_split_lines(b, '\n');
    piece_laws::law_split_join(b, n);
    lemma_split_nonempty(b);
    let all = seq![a] + parts;
    assert forall|i: int| 0 <= i < all.len() implies piece_laws::lacks(#[trigger] all[i], '\n') by {
        if i > 0 {
            assert(all[i] == parts[i - 1]);
        }
    }
    piece_laws::lemma_join_cons(a, parts, n);
    piece_laws::law_join_split(all, '\n');
    lemma_paragraphs_cons(a, parts, room);
}

proof fn lemma_split_nonempty(s: Seq<char>)
    ensures
        pieces::split(s, seq!['\n']).len() > 0,
{
}

proof fn lemma_paragraphs_one(a: Seq<char>, room: int)
    ensures
        wrap::paragraphs_wrapped(seq![a], room) == wrap::wrapped_lines(a, room),
{
    let one = seq![a];
    assert(one.drop_last() =~= Seq::<Seq<char>>::empty());
    assert(wrap::paragraphs_wrapped(one.drop_last(), room) =~= Seq::<Seq<char>>::empty());
    assert(Seq::<Seq<char>>::empty() + wrap::wrapped_lines(a, room) =~= wrap::wrapped_lines(
        a,
        room,
    ));
}

proof fn lemma_paragraphs_cons(a: Seq<char>, parts: Seq<Seq<char>>, room: int)
    ensures
        wrap::paragraphs_wrapped(seq![a] + parts, room) == wrap::wrapped_lines(a, room)
            + wrap::paragraphs_wrapped(parts, room),
    decreases parts.len(),
{
    let all = seq![a] + parts;
    if parts.len() == 0 {
        assert(all =~= seq![a]);
        lemma_paragraphs_one(a, room);
        assert(wrap::paragraphs_wrapped(parts, room) =~= Seq::<Seq<char>>::empty());
        assert(wrap::wrapped_lines(a, room) + Seq::<Seq<char>>::empty() =~= wrap::wrapped_lines(
            a,
            room,
        ));
    } else {
        let front = parts.drop_last();
        assert(all.drop_last() =~= seq![a] + front);
        assert(all.last() == parts.last());
        lemma_paragraphs_cons(a, front, room);
        let x = wrap::wrapped_lines(a, room);
        let y = wrap::paragraphs_wrapped(front, room);
        let z = wrap::wrapped_lines(parts.last(), room);
        assert((x + y) + z =~= x + (y + z));
    }
}

/// Every line of a text that is broken is at most `max_width` columns wide if that is four or more.
pub proof fn law_no_line_is_too_wide(text: Seq<char>, max_width: int, i: int)
    requires
        max_width >= 4,
        0 <= i < wrap::text_lines(text, max_width).len(),
    ensures
        wrap::width(wrap::text_lines(text, max_width)[i]) <= max_width,
{
    wrap_laws::lemma_text_lines(text, max_width);
}

/// The columns of a text are those of its characters: two for the wide ones of East Asian scripts,
/// which are hangul letters and syllables, kana, ideographs with their radicals and punctuation, and
/// full-width forms; one for every other.
pub proof fn law_width_counts_columns(a: Seq<char>, c: char, b: Seq<char>)
    ensures
        wrap::width(Seq::<char>::empty()) == 0,
        wrap::width(a + seq![c] + b) == wrap::width(a) + wrap::width(b) + (if {
            ||| '\u{1100}' <= c <= '\u{115f}'
            ||| '\u{2e80}' <= c <= '\u{a4cf}'
            ||| '\u{ac00}' <= c <= '\u{d7a3}'
            ||| '\u{f900}' <= c <= '\u{faff}'
            ||| '\u{fe30}' <= c <= '\u{fe6f}'
            ||| '\u{ff00}' <= c <= '\u{ff60}'
            ||| '\u{ffe0}' <= c <= '\u{ffe6}'
            ||| '\u{1b000}' <= c <= '\u{1b16f}'
            ||| '\u{20000}' <= c <= '\u{3fffd}'
        } {
            2nat
        } else {
            1nat
        }),
{
    wrap::lemma_width_add(a + seq![c], b);
    wrap::lemma_width_add(a, seq![c]);
    assert(seq![c].drop_last() =~= Seq::<char>::empty());
    assert(wrap::width(seq![c]) == wrap::width(Seq::<char>::empty()) + wrap::width_of(c));
}

/// A subtitle that is not too long is laid out after the others under the next number, at its times,
/// with its lines broken if a width is given, and without white space around its text; one without
/// text is left out.
pub proof fn law_subtitles_are_laid_out(
    list: Seq<SegmentView>,
    s: SegmentView,
    max_line_width: int,
    limits: Seq<cue::CueLimit>,
    limit: cue::CueLimit,
)
    requires
        !limit.too_long,
        list.len() == limits.len(),
    ensures
        ({
            let before = cue::laid_out(list, max_line_width, limits);
            let after = cue::laid_out(list.push(s), max_line_width, limits.push(limit));
            &&& spaces::all_white(s.text) ==> after == before
            &&& !spaces::all_white(s.text) ==> {
                &&& after.len() == before.len() + 1
                &&& after.drop_last() == before
                &&& after.last().index == before.len() + 1
                &&& after.last().start_ms == s.start_ms
                &&& after.last().end_ms == s.end_ms
                &&& max_line_width <= 0 ==> after.last().text == spaces::trim(s.text)
                &&& max_line_width > 0 ==> after.last().text == spaces::trim(
                    wrap::wrapped(s.text, max_line_width),
                )
            }
        }),
{
    let before = cue::laid_out(list, max_line_width, limits);
    assert(list.push(s).drop_last() =~= list);
    assert(limits.push(limit).drop_last() =~= limits);
    let parts = seq![s];
    assert(parts.drop_last() =~= Seq::<SegmentView>::empty());
    assert(cue::shown_parts(before, parts.drop_last(), max_line_width) == before);
    let text = cue::shown_text(s.text, max_line_width);
    spaces::lemma_blank(s.text);
    lemma_shown_blank(s.text, max_line_width);
    let after = cue::laid_out(list.push(s), max_line_width, limits.push(limit));
    assert(after == cue::shown_parts(before, parts, max_line_width));
    if text.len() > 0 {
        assert(after.drop_last() =~= before);
    }
}

/// What is shown of a text is empty exactly if the text is blank.
proof fn lemma_shown_blank(text: Seq<char>, max_line_width: int)
    ensures
        cue::shown_text(text, max_line_width).len() == 0 <==> spaces::all_white(text),
{
    let shown = cue::shown_text(text, max_line_width);
    wrap_laws::law_wrap_keeps_text(text, max_line_width);
    wrap_laws::lemma_inked_trim(wrap::wrapped(text, max_line_width));
    wrap_laws::lemma_inked_trim(text);
    assert(wrap_laws::inked(shown) == wrap_laws::inked(text));
    if spaces::all_white(text) {
        wrap_laws::lemma_inked_white(text);
        lemma_ink_of_trimmed(shown);
        if max_line_width > 0 {
            spaces::lemma_trim_idempotent(wrap::wrapped(text, max_line_width));
        } else {
            spaces::lemma_trim_idempotent(text);
        }
    }
    if shown.len() == 0 {
        assert(wrap_laws::inked(shown) =~= Seq::<char>::empty());
        lemma_no_ink(text);
    }
}

proof fn lemma_ink_of_trimmed(s: Seq<char>)
    ensures
        s.len() > 0 && !spaces::is_white(s.last()) ==> wrap_laws::inked(s).len() > 0,
{
}

proof fn lemma_no_ink(s: Seq<char>)
    requires
        wrap_laws::inked(s).len() == 0,
    ensures
        spaces::all_white(s),
    decreases s.len(),
{
    if s.len() > 0 {
        let front = s.drop_last();
        lemma_no_ink(front);
        assert forall|i: int| 0 <= i < s.len() implies spaces::is_white(#[trigger] s[i]) by {
            if i < front.len() {
                assert(front[i] == s[i]);
            }
        }
    }
}

} // verus!
