//! Where subtitles are split, and how their time is shared.

use vstd::prelude::*;

use crate::srt::{cue, cue_laws};
use crate::text::spaces;
use crate::types::SegmentView;

verus! {

/// One of the marks that end a sentence or a clause, which are 。！？；.!?;，、, and the line break.
pub open spec fn clause_mark(c: char) -> bool {
    seq!['。', '！', '？', '；', '.', '!', '?', ';', '\n', '，', '、', ','].contains(c)
}

proof fn lemma_clause_mark(c: char)
    ensures
        clause_mark(c) == cue::ends_clause(c),
{
    let marks = seq!['。', '！', '？', '；', '.', '!', '?', ';', '\n', '，', '、', ','];
    assert(marks.len() == 12);
    assert(marks[0] == '。' && marks[1] == '！' && marks[2] == '？' && marks[3] == '；');
    assert(marks[4] == '.' && marks[5] == '!' && marks[6] == '?' && marks[7] == ';');
    assert(marks[8] == '\n' && marks[9] == '，' && marks[10] == '、' && marks[11] == ',');
}

proof fn lemma_marks(s: Seq<char>, p: int)
    ensures
        cue::clause_marks(s).contains(p) <==> 0 < p <= s.len() && clause_mark(s[p - 1]),
    decreases s.len(),
{
    let all = cue::clause_marks(s);
    if s.len() > 0 {
        let front = s.drop_last();
        lemma_marks(front, p);
        lemma_clause_mark(s.last());
        let before = cue::clause_marks(front);
        if 0 < p <= front.len() {
            assert(front[p - 1] == s[p - 1]);
        }
        if cue::ends_clause(s.last()) {
            if before.contains(p) {
                let k = choose|k: int| 0 <= k < before.len() && before[k] == p;
                assert(all[k] == p);
            }
            if p == s.len() {
                assert(all[before.len() as int] == p);
            }
            if all.contains(p) && p != s.len() {
                let k = choose|k: int| 0 <= k < all.len() && all[k] == p;
                assert(before[k] == p);
            }
        }
    }
}

/// A clause ends inside a text exactly after each of the marks, and the last one at the end of the
/// text.
pub proof fn law_clauses_end_after_marks(s: Seq<char>, p: int)
    ensures
        cue::clause_ends(s).contains(p) <==> 0 < p < s.len() && seq![
            '。',
            '！',
            '？',
            '；',
            '.',
            '!',
            '?',
            ';',
            '\n',
            '，',
            '、',
            ',',
        ].contains(s[p - 1]) || 0 < p == s.len(),
        forall|i: int, j: int|
            0 <= i < j < cue::clause_ends(s).len() ==> #[trigger] cue::clause_ends(s)[i]
                < #[trigger] cue::clause_ends(s)[j],
{
    cue::lemma_clause_ends(s);
    lemma_marks(s, p);
    let marks = cue::clause_marks(s);
    let ends = cue::clause_ends(s);
    if s.len() > 0 && !(marks.len() > 0 && marks.last() == s.len()) {
        assert(ends[marks.len() as int] == s.len());
        if marks.contains(p) {
            let k = choose|k: int| 0 <= k < marks.len() && marks[k] == p;
            assert(ends[k] == p);
        }
        if ends.contains(p) && p != s.len() {
            let k = choose|k: int| 0 <= k < ends.len() && ends[k] == p;
            assert(marks[k] == p);
        }
    } else if s.len() > 0 {
        assert(marks[marks.len() - 1] == s.len());
    }
}

/// Every clause but the last ends with a mark.
proof fn lemma_clause_last(s: Seq<char>, k: int)
    requires
        0 <= k < cue::clause_ends(s).len() - 1,
    ensures
        clause_mark(s[cue::clause_ends(s)[k] - 1]),
        cue::clause(s, cue::clause_ends(s), k).len() > 0,
        cue::clause(s, cue::clause_ends(s), k).last() == s[cue::clause_ends(s)[k] - 1],
{
    let ends = cue::clause_ends(s);
    cue::lemma_clause_ends(s);
    let p = ends[k];
    assert(ends.contains(p));
    law_clauses_end_after_marks(s, p);
    assert(ends[ends.len() - 1] == s.len());
    assert(p < s.len());
    if k > 0 {
        assert(ends[k - 1] < ends[k]);
    }
}

proof fn lemma_mark_or_break(c: char)
    requires
        clause_mark(c),
        c != '\n',
    ensures
        !spaces::is_white(c),
{
    lemma_clause_mark(c);
}

/// Trimming takes nothing after a character that is no white space.
proof fn lemma_trim_keeps_last(s: Seq<char>)
    requires
        s.len() > 0,
        !spaces::is_white(s.last()),
    ensures
        spaces::trim(s).len() > 0,
        spaces::trim(s).last() == s.last(),
{
    spaces::lemma_trim_start(s);
    let t = spaces::trim_start(s);
    if t.len() == 0 {
        assert(s.take(s.len() as int)[s.len() - 1] == s.last());
    }
    assert(t.last() == s.last());
    assert(spaces::trim_end(t) == t);
}

/// Every group that is filled ends with a mark, and so does the one being filled while there is a
/// clause to come.
proof fn lemma_groups_end(s: Seq<char>, max_chars: int, k: int)
    requires
        0 <= k <= cue::clause_ends(s).len(),
        forall|i: int| 0 <= i < s.len() ==> #[trigger] s[i] != '\n',
    ensures
        ({
            let (groups, current) = cue::grouping(s, cue::clause_ends(s), max_chars, k);
            &&& forall|i: int|
                0 <= i < groups.len() ==> (#[trigger] groups[i]).len() > 0 && clause_mark(
                    groups[i].last(),
                )
            &&& current.len() > 0 && k < cue::clause_ends(s).len() ==> clause_mark(current.last())
        }),
    decreases k,
{
    let ends = cue::clause_ends(s);
    if k > 0 {
        lemma_groups_end(s, max_chars, k - 1);
        let (groups, current) = cue::grouping(s, ends, max_chars, k - 1);
        if k < ends.len() {
            let next = cue::clause(s, ends, k - 1);
            cue::lemma_clause_ends(s);
            lemma_clause_last(s, k - 1);
            lemma_mark_or_break(next.last());
            lemma_trim_keeps_last(next);
            assert((current + next).last() == next.last());
            lemma_trim_keeps_last(current + next);
        }
    }
}

/// A text is split only after marks if it has one inside: every part but the last ends with a mark.
/// A text without one is cut into parts of the same length, one for each part wanted and one
/// character at least; only the last may be shorter.
pub proof fn law_splits_are_after_marks(text: Seq<char>, limit: cue::CueLimit)
    requires
        limit.parts > 0,
    ensures
        ({
            let parts = cue::split_texts(text, limit);
            let marked = exists|p: int|
                0 <= p < text.len() - 1 && text[p] != '\n' && clause_mark(#[trigger] text[p]);
            let size = if text.len() as int / limit.parts as int >= 1 {
                text.len() as int / limit.parts as int
            } else {
                1
            };
            forall|k: int|
                0 <= k < parts.len() - 1 ==> if marked {
                    (#[trigger] parts[k]).len() > 0 && clause_mark(parts[k].last())
                } else {
                    parts[k].len() == size
                }
        }),
{
    let flat = spaces::one_line(text);
    let parts = cue::split_texts(text, limit);
    let ends = cue::clause_ends(flat);
    cue::lemma_clause_ends(flat);
    let max_chars = limit.max_chars as int;
    assert forall|i: int| 0 <= i < flat.len() implies #[trigger] flat[i] != '\n' by {
        assert(flat[i] == spaces::space_for_break(text[i]));
    }
    if parts.len() > 0 {
        if ends.len() < 2 {
            if exists|p: int|
                0 <= p < text.len() - 1 && text[p] != '\n' && clause_mark(#[trigger] text[p]) {
                let p = choose|p: int|
                    0 <= p < text.len() - 1 && text[p] != '\n' && clause_mark(#[trigger] text[p]);
                assert(flat[p] == text[p]);
                law_clauses_end_after_marks(flat, p + 1);
                law_clauses_end_after_marks(flat, flat.len() as int);
                let a = choose|a: int| 0 <= a < ends.len() && ends[a] == p + 1;
                let b = choose|b: int| 0 <= b < ends.len() && ends[b] == flat.len();
                assert(a != b);
            }
            let per = flat.len() as int / limit.parts as int;
            lemma_chunk_sizes(
                flat,
                if per < 1 {
                    1
                } else {
                    per
                },
            );
        } else {
            let p = ends[0] - 1;
            lemma_clause_last(flat, 0);
            assert(ends[0] < ends[1]);
            assert(flat[p] == spaces::space_for_break(text[p]));
            lemma_clause_mark(' ');
            assert(text[p] != '\n' && clause_mark(text[p]));
            assert(0 <= p < text.len() - 1);
            lemma_groups_end(flat, max_chars, ends.len() as int);
        }
    }
}

proof fn lemma_chunk_sizes(s: Seq<char>, per: int)
    requires
        per >= 1,
    ensures
        forall|k: int|
            0 <= k < cue::chunks(s, per).len() - 1 ==> (#[trigger] cue::chunks(s, per)[k]).len()
                == per,
    decreases s.len(),
{
    if s.len() > per {
        lemma_chunk_sizes(s.skip(per), per);
        let rest = cue::chunks(s.skip(per), per);
        let all = seq![s.take(per)] + rest;
        assert forall|k: int| 0 <= k < all.len() - 1 implies (#[trigger] all[k]).len() == per by {
            if k > 0 {
                assert(all[k] == rest[k - 1]);
            }
        }
    }
}

/// Two clauses or groups that follow each other are one part if they fit together: a part that is
/// followed by another would be too long with the next clause.
proof fn lemma_groups_are_full(s: Seq<char>, max_chars: int, k: int)
    requires
        0 <= k <= cue::clause_ends(s).len(),
    ensures
        ({
            let ends = cue::clause_ends(s);
            let (groups, current) = cue::grouping(s, ends, max_chars, k);
            forall|i: int| 0 <= i < groups.len() ==> overfull(s, max_chars, #[trigger] groups[i])
        }),
    decreases k,
{
    let ends = cue::clause_ends(s);
    if k > 0 {
        lemma_groups_are_full(s, max_chars, k - 1);
        let (groups, current) = cue::grouping(s, ends, max_chars, k - 1);
        let next = cue::clause(s, ends, k - 1);
        if current.len() > 0 && (current + next).len() > max_chars {
            assert(overfull(s, max_chars, current)) by {
                assert(next == cue::clause(s, ends, k - 1));
            }
        }
    }
}

/// The text is too long together with some clause of `s`.
pub open spec fn overfull(s: Seq<char>, max_chars: int, text: Seq<char>) -> bool {
    exists|k: int|
        0 <= k < cue::clause_ends(s).len() && text.len() + (#[trigger] cue::clause(
            s,
            cue::clause_ends(s),
            k,
        )).len() > max_chars
}

/// A part that another one follows has no room for one more clause: clauses are put together as
/// long as they fit. In particular a text of clauses is not split at all if all of it fits.
pub proof fn law_parts_are_full(s: Seq<char>, max_chars: int)
    ensures
        forall|i: int|
            0 <= i < cue::clause_groups(s, max_chars).len() - 1 ==> overfull(
                s,
                max_chars,
                #[trigger] cue::clause_groups(s, max_chars)[i],
            ),
        s.len() <= max_chars ==> cue::clause_groups(s, max_chars).len() <= 1,
{
    let ends = cue::clause_ends(s);
    lemma_groups_are_full(s, max_chars, ends.len() as int);
    if s.len() <= max_chars {
        lemma_one_group(s, max_chars, ends.len() as int);
    }
}

proof fn lemma_one_group(s: Seq<char>, max_chars: int, k: int)
    requires
        0 <= k <= cue::clause_ends(s).len(),
        s.len() <= max_chars,
    ensures
        ({
            let ends = cue::clause_ends(s);
            let (groups, current) = cue::grouping(s, ends, max_chars, k);
            &&& groups.len() == 0
            &&& current.len() <= (if k == 0 {
                0
            } else {
                ends[k - 1]
            })
        }),
    decreases k,
{
    let ends = cue::clause_ends(s);
    cue::lemma_clause_ends(s);
    if k > 0 {
        lemma_one_group(s, max_chars, k - 1);
        let (groups, current) = cue::grouping(s, ends, max_chars, k - 1);
        let next = cue::clause(s, ends, k - 1);
        if k > 1 {
            assert(ends[k - 2] < ends[k - 1]);
        }
        spaces::lemma_trim_start(current + next);
        spaces::lemma_trim_end(spaces::trim_start(current + next));
    }
}

/// Each text gets time by its length: after the first `k + 1` of the texts, as large a part of the
/// time on screen has gone by, to the millisecond below, as they have of the characters. The last
/// share ends with the subtitle.
pub proof fn law_time_goes_by_characters(s: SegmentView, groups: Seq<Seq<char>>, k: int)
    requires
        0 <= k < groups.len(),
        s.start_ms <= s.end_ms,
        cue_laws::run_together(groups).len() > 0,
    ensures
        ({
            let all = cue_laws::run_together(groups).len() as int;
            let so_far = cue_laws::run_together(groups.take(k + 1)).len() as int;
            let gone = cue::share_end(s, groups, k) - s.start_ms;
            let time = s.end_ms - s.start_ms;
            &&& k + 1 < groups.len() ==> gone * all <= time * so_far < (gone + 1) * all
            &&& k + 1 == groups.len() ==> gone == time
        }),
{
    lemma_total_is_length(groups);
    lemma_total_is_length(groups.take(k + 1));
    let all = cue_laws::run_together(groups).len() as int;
    let so_far = cue_laws::run_together(groups.take(k + 1)).len() as int;
    let time = s.end_ms - s.start_ms;
    let gone = time * so_far / all;
    assert(gone * all <= time * so_far < (gone + 1) * all) by (nonlinear_arith)
        requires
            all > 0,
            gone == time * so_far / all,
    ;
}

proof fn lemma_total_is_length(texts: Seq<Seq<char>>)
    ensures
        cue::total_chars(texts) == cue_laws::run_together(texts).len(),
    decreases texts.len(),
{
    if texts.len() > 0 {
        lemma_total_is_length(texts.drop_last());
    }
}

/// A part ends with its share of the time, but never before one millisecond is over, and the next
/// one begins there.
pub proof fn law_parts_end_with_their_shares(s: SegmentView, groups: Seq<Seq<char>>, k: int)
    requires
        0 <= k < groups.len(),
    ensures
        ({
            let parts = cue::distributed(s, groups);
            let start = if k == 0 {
                s.start_ms
            } else {
                parts[k - 1].end_ms
            };
            &&& parts.len() == groups.len()
            &&& parts[k].text == groups[k]
            &&& parts[k].start_ms == start
            &&& cue::share_end(s, groups, k) > start ==> parts[k].end_ms == cue::share_end(
                s,
                groups,
                k,
            )
            &&& cue::share_end(s, groups, k) <= start ==> parts[k].end_ms == start + 1
        }),
{
}

/// A subtitle is left alone exactly if it is not too long, has no text, or is one part.
pub proof fn law_short_subtitles_stay(s: SegmentView, limit: cue::CueLimit)
    requires
        limit.too_long ==> limit.parts > 0,
    ensures
        !limit.too_long || spaces::trim(s.text).len() == 0 ==> cue::split_cues(s, limit) == seq![s],
        cue::split_cues(s, limit).len() == 1 && cue::split_texts(s.text, limit).len() == 0
            ==> cue::split_cues(s, limit)[0] == s,
        cue::split_texts(s.text, limit).len() > 0 ==> cue::split_cues(s, limit).len()
            == cue::split_texts(s.text, limit).len(),
{
}

/// A text without marks on screen for too long is cut without losing anything, white space included.
pub proof fn law_text_without_marks_is_cut_whole(text: Seq<char>, limit: cue::CueLimit)
    requires
        limit.too_long,
        limit.parts > 0,
        spaces::trim(text).len() > 0,
        forall|p: int| 0 <= p < text.len() ==> !clause_mark(#[trigger] text[p]),
    ensures
        cue_laws::run_together(cue::split_texts(text, limit)) == text,
{
    let flat = spaces::one_line(text);
    assert forall|p: int| 0 <= p < text.len() implies flat[p] == text[p] by {
        lemma_clause_mark(text[p]);
        assert(!clause_mark(text[p]));
    }
    assert(flat =~= text);
    let ends = cue::clause_ends(flat);
    cue::lemma_clause_ends(flat);
    if ends.len() >= 2 {
        lemma_clause_last(flat, 0);
        assert(ends[0] < ends[1]);
        assert(!clause_mark(text[ends[0] - 1]));
    }
    let per = flat.len() as int / limit.parts as int;
    cue_laws::lemma_chunks(
        flat,
        if per < 1 {
            1
        } else {
            per
        },
    );
}

/// A text of two clauses on screen for too long is split between them exactly if they do not fit
/// into a part together; each part is then its clause without the white space around it.
pub proof fn law_two_clauses_are_split_between(a: Seq<char>, b: Seq<char>, limit: cue::CueLimit)
    requires
        limit.too_long,
        limit.parts > 0,
        spaces::trim(a).len() > 0,
        spaces::trim(b).len() > 0,
        clause_mark(a.last()),
        forall|p: int| 0 <= p < a.len() - 1 ==> !clause_mark(#[trigger] a[p]),
        forall|p: int| 0 <= p < b.len() - 1 ==> !clause_mark(#[trigger] b[p]),
        a.last() != '\n',
        b.last() != '\n',
    ensures
        cue::split_texts(a + b, limit) == (if spaces::trim(a).len() + b.len() > limit.max_chars {
            seq![spaces::trim(a), spaces::trim(b)]
        } else {
            Seq::empty()
        }),
{
    let s = a + b;
    spaces::lemma_blank(a);
    spaces::lemma_blank(b);
    assert(a.len() > 0 && b.len() > 0);
    assert forall|p: int| 0 <= p < s.len() implies #[trigger] s[p] != '\n' by {
        lemma_clause_mark('\n');
        if p < a.len() {
            assert(s[p] == a[p]);
            if p == a.len() - 1 {
                assert(a[p] == a.last());
            }
        } else {
            assert(s[p] == b[p - a.len()]);
            if p == s.len() - 1 {
                assert(b[p - a.len()] == b.last());
            }
        }
    }
    assert(spaces::one_line(s) =~= s);
    assert(!spaces::all_white(s)) by {
        let i = choose|i: int| 0 <= i < a.len() && !spaces::is_white(#[trigger] a[i]);
        assert(s[i] == a[i]);
    }
    spaces::lemma_blank(s);
    let ends = cue::clause_ends(s);
    cue::lemma_clause_ends(s);
    assert forall|i: int| 0 <= i < ends.len() implies #[trigger] ends[i] == a.len() || ends[i]
        == s.len() by {
        let p = ends[i];
        assert(ends.contains(p));
        law_clauses_end_after_marks(s, p);
        if p < a.len() {
            assert(s[p - 1] == a[p - 1]);
        } else if a.len() < p < s.len() {
            assert(s[p - 1] == b[p - 1 - a.len()]);
        }
    }
    law_clauses_end_after_marks(s, a.len() as int);
    law_clauses_end_after_marks(s, s.len() as int);
    assert(s[a.len() - 1] == a.last());
    let x = choose|x: int| 0 <= x < ends.len() && ends[x] == a.len();
    let y = choose|y: int| 0 <= y < ends.len() && ends[y] == s.len();
    assert(x < y);
    assert(ends.len() == 2) by {
        if ends.len() > 2 {
            assert(ends[0] < ends[1]);
            assert(ends[1] < ends[2]);
        }
    }
    let max = limit.max_chars as int;
    let none = Seq::<Seq<char>>::empty();
    let first = spaces::trim(a);
    assert(cue::clause(s, ends, 0) =~= a);
    assert(cue::clause(s, ends, 1) =~= b);
    assert(Seq::<char>::empty() + a =~= a);
    assert(cue::grouping(s, ends, max, 0) == (none, Seq::<char>::empty()));
    assert(cue::grouping(s, ends, max, 1) == (none, first));
    if first.len() + b.len() > max {
        assert(cue::grouping(s, ends, max, 2) == (none.push(first), spaces::trim(b)));
        assert(none.push(first).push(spaces::trim(b)) =~= seq![first, spaces::trim(b)]);
    } else {
        assert(cue::grouping(s, ends, max, 2) == (none, spaces::trim(first + b)));
    }
}

} // verus!
