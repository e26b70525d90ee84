//! What splitting and laying out keep, and what they guarantee.

use vstd::prelude::*;

use crate::srt::{cue, wrap, wrap_laws};
use crate::text::{piece_laws, pieces, spaces};
use crate::types::SegmentView;

verus! {

/// The parts of a subtitle follow each other without gaps from its start on, and each lasts.
pub proof fn law_distribute_no_gaps(s: SegmentView, groups: Seq<Seq<char>>)
    requires
        groups.len() > 0,
    ensures
        ({
            let parts = cue::distributed(s, groups);
            &&& parts.len() == groups.len()
            &&& parts[0].start_ms == s.start_ms
            &&& forall|k: int| 0 <= k < parts.len() ==> #[trigger] parts[k].start_ms < parts[k].end_ms
            &&& forall|k: int|
                0 < k < parts.len() ==> #[trigger] parts[k].start_ms == parts[k - 1].end_ms
        }),
{
    let parts = cue::distributed(s, groups);
    assert forall|k: int| 0 <= k < parts.len() implies #[trigger] parts[k].start_ms
        < parts[k].end_ms by {
        cue::lemma_part_end(s, groups, k);
    }
}

/// Where the share of the `k`-th text in the time on screen begins.
pub open spec fn share_start(s: SegmentView, groups: Seq<Seq<char>>, k: int) -> int {
    if k <= 0 {
        s.start_ms
    } else {
        cue::share_end(s, groups, k - 1)
    }
}

/// Every text has a share in the time on screen.
pub open spec fn shares_last(s: SegmentView, groups: Seq<Seq<char>>) -> bool {
    forall|k: int|
        0 <= k < groups.len() ==> share_start(s, groups, k) < #[trigger] cue::share_end(
            s,
            groups,
            k,
        )
}

/// Each part of a subtitle is on screen for the share of its text, and the last one up to the end,
/// exactly if every text has a share.
pub proof fn law_distribute_by_length(s: SegmentView, groups: Seq<Seq<char>>)
    requires
        groups.len() > 0,
    ensures
        shares_last(s, groups) <==> forall|k: int|
            0 <= k < groups.len() ==> {
                &&& (#[trigger] cue::distributed(s, groups)[k]).start_ms == share_start(
                    s,
                    groups,
                    k,
                )
                &&& cue::distributed(s, groups)[k].end_ms == cue::share_end(s, groups, k)
            },
{
    let parts = cue::distributed(s, groups);
    if shares_last(s, groups) {
        assert forall|k: int| 0 <= k < groups.len() implies {
            &&& (#[trigger] parts[k]).start_ms == share_start(s, groups, k)
            &&& parts[k].end_ms == cue::share_end(s, groups, k)
        } by {
            lemma_shares_kept(s, groups, k);
            if k > 0 {
                lemma_shares_kept(s, groups, k - 1);
            }
        }
    }
    if forall|k: int|
        0 <= k < groups.len() ==> {
            &&& (#[trigger] parts[k]).start_ms == share_start(s, groups, k)
            &&& parts[k].end_ms == cue::share_end(s, groups, k)
        } {
        assert forall|k: int| 0 <= k < groups.len() implies share_start(s, groups, k)
            < #[trigger] cue::share_end(s, groups, k) by {
            assert(parts[k].start_ms == share_start(s, groups, k));
            cue::lemma_part_end(s, groups, k);
        }
    }
}

proof fn lemma_shares_kept(s: SegmentView, groups: Seq<Seq<char>>, k: int)
    requires
        0 <= k < groups.len(),
        shares_last(s, groups),
    ensures
        cue::part_end(s, groups, k) == cue::share_end(s, groups, k),
    decreases k,
{
    assert(share_start(s, groups, k) < cue::share_end(s, groups, k));
    if k > 0 {
        lemma_shares_kept(s, groups, k - 1);
    }
}

proof fn lemma_total_step(groups: Seq<Seq<char>>, k: int)
    requires
        0 <= k < groups.len(),
    ensures
        cue::total_chars(groups.take(k + 1)) == cue::total_chars(groups.take(k)) + groups[k].len(),
{
    assert(groups.take(k + 1).drop_last() =~= groups.take(k));
}

proof fn lemma_total_rest(groups: Seq<Seq<char>>, k: int)
    requires
        0 <= k <= groups.len(),
        forall|i: int| 0 <= i < groups.len() ==> (#[trigger] groups[i]).len() > 0,
    ensures
        cue::total_chars(groups.take(k)) + (groups.len() - k) <= cue::total_chars(groups),
    decreases groups.len() - k,
{
    if k < groups.len() {
        lemma_total_rest(groups, k + 1);
        lemma_total_step(groups, k);
        assert(groups[k].len() > 0);
    } else {
        assert(groups.take(k) =~= groups);
    }
}

/// More of a span for more of the characters.
proof fn lemma_share_rises(span: int, a: int, b: int, total: int)
    requires
        0 <= a < b,
        1 <= total <= span,
    ensures
        span * a / total < span * b / total,
{
    assert(span * b >= span * a + total) by (nonlinear_arith)
        requires
            a < b,
            total <= span,
            span >= 0,
            0 <= a,
    ;
    assert(span * b / total >= (span * a + total) / total) by (nonlinear_arith)
        requires
            span * b >= span * a + total,
            total >= 1,
    ;
    assert((span * a + total) / total == span * a / total + 1) by (nonlinear_arith)
        requires
            total >= 1,
    ;
}

proof fn lemma_share_below(span: int, a: int, total: int)
    requires
        0 <= a < total <= span,
    ensures
        span * a / total < span,
{
    lemma_share_rises(span, a, total, total);
    assert(span * total / total == span) by (nonlinear_arith)
        requires
            total >= 1,
    ;
}

/// Where there is a millisecond for each character, no part is stretched.
proof fn lemma_part_end_exact(s: SegmentView, groups: Seq<Seq<char>>, k: int)
    requires
        0 <= k < groups.len(),
        forall|i: int| 0 <= i < groups.len() ==> (#[trigger] groups[i]).len() > 0,
        cue::total_chars(groups) <= cue::span(s),
    ensures
        cue::part_end(s, groups, k) == cue::share_end(s, groups, k),
        cue::part_end(s, groups, k) <= s.end_ms,
    decreases k,
{
    let total = cue::total_chars(groups) as int;
    let span = cue::span(s);
    lemma_total_step(groups, k);
    lemma_total_rest(groups, k);
    lemma_total_rest(groups, k + 1);
    assert(groups[k].len() > 0);
    let a = cue::total_chars(groups.take(k)) as int;
    let b = cue::total_chars(groups.take(k + 1)) as int;
    if k + 1 < groups.len() {
        lemma_share_rises(span, a, b, total);
        lemma_share_below(span, b, total);
    } else {
        lemma_share_below(span, a, total);
    }
    if k > 0 {
        lemma_part_end_exact(s, groups, k - 1);
    } else {
        assert(groups.take(0) =~= Seq::<Seq<char>>::empty());
        assert(span * 0 / total == 0) by (nonlinear_arith)
            requires
                total >= 1,
        ;
    }
}

/// Where there is a millisecond for each character and no text is empty, the parts of a subtitle
/// end with the subtitle, and none ends later.
pub proof fn law_distribute_fills_the_span(s: SegmentView, groups: Seq<Seq<char>>)
    requires
        groups.len() > 0,
        forall|i: int| 0 <= i < groups.len() ==> (#[trigger] groups[i]).len() > 0,
        cue::total_chars(groups) <= cue::span(s),
    ensures
        cue::distributed(s, groups).last().end_ms == s.end_ms,
        forall|k: int|
            0 <= k < groups.len() ==> (#[trigger] cue::distributed(s, groups)[k]).end_ms
                <= s.end_ms,
{
    lemma_part_end_exact(s, groups, groups.len() - 1);
    assert forall|k: int| 0 <= k < groups.len() implies (#[trigger] cue::distributed(
        s,
        groups,
    )[k]).end_ms <= s.end_ms by {
        lemma_part_end_exact(s, groups, k);
    }
}

/// The texts one after the other.
pub open spec fn run_together(texts: Seq<Seq<char>>) -> Seq<char>
    decreases texts.len(),
{
    if texts.len() == 0 {
        Seq::empty()
    } else {
        run_together(texts.drop_last()) + texts.last()
    }
}

proof fn lemma_run_push(texts: Seq<Seq<char>>, t: Seq<char>)
    ensures
        run_together(texts.push(t)) == run_together(texts) + t,
{
    assert(texts.push(t).drop_last() =~= texts);
}

proof fn lemma_run_cons(t: Seq<char>, texts: Seq<Seq<char>>)
    ensures
        run_together(seq![t] + texts) == t + run_together(texts),
    decreases texts.len(),
{
    if texts.len() == 0 {
        assert(seq![t] + texts =~= Seq::<Seq<char>>::empty().push(t));
        lemma_run_push(Seq::empty(), t);
        assert(Seq::<char>::empty() + t =~= t + Seq::<char>::empty());
    } else {
        assert((seq![t] + texts).drop_last() =~= seq![t] + texts.drop_last());
        lemma_run_cons(t, texts.drop_last());
        assert(t + run_together(texts.drop_last()) + texts.last() =~= t + (run_together(
            texts.drop_last(),
        ) + texts.last()));
    }
}

pub proof fn lemma_chunks(s: Seq<char>, per: int)
    requires
        per >= 1,
    ensures
        run_together(cue::chunks(s, per)) == s,
        forall|i: int|
            0 <= i < cue::chunks(s, per).len() ==> (#[trigger] cue::chunks(s, per)[i]).len() > 0,
    decreases s.len(),
{
    if s.len() == 0 {
    } else if s.len() <= per {
        lemma_run_push(Seq::empty(), s);
        assert(Seq::<Seq<char>>::empty().push(s) =~= seq![s]);
        assert(Seq::<char>::empty() + s =~= s);
    } else {
        lemma_chunks(s.skip(per), per);
        lemma_run_cons(s.take(per), cue::chunks(s.skip(per), per));
        assert(s.take(per) + s.skip(per) =~= s);
        let rest = cue::chunks(s.skip(per), per);
        let all = seq![s.take(per)] + rest;
        assert forall|i: int| 0 <= i < all.len() implies (#[trigger] all[i]).len() > 0 by {
            if i > 0 {
                assert(all[i] == rest[i - 1]);
            }
        }
    }
}

/// What the clauses so far have put into groups is their text.
proof fn lemma_grouping_text(s: Seq<char>, max_chars: int, k: int)
    requires
        0 <= k <= cue::clause_ends(s).len(),
    ensures
        ({
            let ends = cue::clause_ends(s);
            let (groups, current) = cue::grouping(s, ends, max_chars, k);
            let used = if k == 0 {
                0
            } else {
                ends[k - 1]
            };
            wrap_laws::inked(run_together(groups) + current) == wrap_laws::inked(s.take(used))
        }),
    decreases k,
{
    let ends = cue::clause_ends(s);
    cue::lemma_clause_ends(s);
    if k == 0 {
        assert(s.take(0) =~= Seq::<char>::empty());
        assert(run_together(Seq::<Seq<char>>::empty()) + Seq::<char>::empty() =~= Seq::<
            char,
        >::empty());
    } else {
        lemma_grouping_text(s, max_chars, k - 1);
        let (groups, current) = cue::grouping(s, ends, max_chars, k - 1);
        let from = if k == 1 {
            0
        } else {
            ends[k - 2]
        };
        let next = cue::clause(s, ends, k - 1);
        let cand = current + next;
        let r = run_together(groups);
        assert(s.take(ends[k - 1]) =~= s.take(from) + next);
        wrap_laws::lemma_inked_add(s.take(from), next);
        if current.len() > 0 && cand.len() > max_chars {
            lemma_run_push(groups, current);
            wrap_laws::lemma_inked_add(r + current, spaces::trim(next));
            wrap_laws::lemma_inked_trim(next);
        } else {
            wrap_laws::lemma_inked_add(r, spaces::trim(cand));
            wrap_laws::lemma_inked_trim(cand);
            wrap_laws::lemma_inked_add(current, next);
            wrap_laws::lemma_inked_add(r, current);
            let x = wrap_laws::inked(r);
            let y = wrap_laws::inked(current);
            let z = wrap_laws::inked(next);
            assert(x + (y + z) =~= x + y + z);
        }
    }
}

proof fn lemma_one_line_ink(text: Seq<char>)
    ensures
        wrap_laws::inked(spaces::one_line(text)) == wrap_laws::inked(text),
    decreases text.len(),
{
    let flat = spaces::one_line(text);
    if text.len() > 0 {
        lemma_one_line_ink(text.drop_last());
        assert(flat.drop_last() =~= spaces::one_line(text.drop_last()));
    } else {
        assert(flat =~= text);
    }
}

/// Splitting a subtitle loses no character and adds none, white space apart.
pub proof fn law_split_keeps_text(text: Seq<char>, limit: cue::CueLimit)
    requires
        limit.too_long ==> limit.parts > 0,
        cue::split_texts(text, limit).len() > 0,
    ensures
        wrap_laws::inked(run_together(cue::split_texts(text, limit))) == wrap_laws::inked(text),
{
    let flat = spaces::one_line(text);
    lemma_one_line_ink(text);
    let ends = cue::clause_ends(flat);
    if ends.len() < 2 {
        let per = flat.len() as int / limit.parts as int;
        lemma_chunks(
            flat,
            if per < 1 {
                1
            } else {
                per
            },
        );
    } else {
        lemma_grouping_text(flat, limit.max_chars as int, ends.len() as int);
        cue::lemma_clause_ends(flat);
        assert(flat.take(flat.len() as int) =~= flat);
        let (groups, current) = cue::grouping(
            flat,
            ends,
            limit.max_chars as int,
            ends.len() as int,
        );
        lemma_run_push(groups, current);
        if current.len() == 0 {
            assert(run_together(groups) + current =~= run_together(groups));
        }
    }
}

/// A group of clauses has at most `max_chars` characters, unless it is a single clause.
pub proof fn law_groups_stay_within_the_limit(s: Seq<char>, max_chars: int)
    ensures
        forall|i: int|
            0 <= i < cue::clause_groups(s, max_chars).len() ==> within(
                s,
                max_chars,
                #[trigger] cue::clause_groups(s, max_chars)[i],
            ),
{
    let ends = cue::clause_ends(s);
    lemma_groups_within(s, max_chars, ends.len() as int);
}

/// The text has at most `max_chars` characters or is one clause of `s`.
pub open spec fn within(s: Seq<char>, max_chars: int, text: Seq<char>) -> bool {
    ||| text.len() <= max_chars
    ||| exists|k: int|
        0 <= k < cue::clause_ends(s).len() && text == spaces::trim(
            #[trigger] cue::clause(s, cue::clause_ends(s), k),
        )
}

proof fn lemma_groups_within(s: Seq<char>, max_chars: int, k: int)
    requires
        0 <= k <= cue::clause_ends(s).len(),
    ensures
        ({
            let (groups, current) = cue::grouping(s, cue::clause_ends(s), max_chars, k);
            &&& current.len() > 0 ==> within(s, max_chars, current)
            &&& forall|i: int|
                0 <= i < groups.len() ==> within(s, max_chars, #[trigger] groups[i])
        }),
    decreases k,
{
    let ends = cue::clause_ends(s);
    if k > 0 {
        lemma_groups_within(s, max_chars, k - 1);
        let (groups, current) = cue::grouping(s, ends, max_chars, k - 1);
        let next = cue::clause(s, ends, k - 1);
        let cand = current + next;
        assert(within(s, max_chars, spaces::trim(next)));
        if current.len() == 0 {
            assert(cand =~= next);
        } else {
            spaces::lemma_trim_start(cand);
            spaces::lemma_trim_end(spaces::trim_start(cand));
        }
    }
}

/// No text that a subtitle is split into is empty, and together they are no longer than its text.
proof fn lemma_split_texts(text: Seq<char>, limit: cue::CueLimit)
    requires
        limit.too_long ==> limit.parts > 0,
    ensures
        forall|i: int|
            0 <= i < cue::split_texts(text, limit).len() ==> (#[trigger] cue::split_texts(
                text,
                limit,
            )[i]).len() > 0,
        cue::total_chars(cue::split_texts(text, limit)) <= text.len(),
{
    let flat = spaces::one_line(text);
    let ends = cue::clause_ends(flat);
    cue::lemma_clause_ends(flat);
    cue::lemma_grouping(flat, limit.max_chars as int, ends.len() as int);
    let (groups, current) = cue::grouping(flat, ends, limit.max_chars as int, ends.len() as int);
    cue::lemma_total_push(groups, current);
    if limit.too_long {
        let per = flat.len() as int / limit.parts as int;
        let p = if per < 1 {
            1
        } else {
            per
        };
        lemma_chunks(flat, p);
        lemma_total_run(cue::chunks(flat, p));
    }
}

proof fn lemma_total_run(texts: Seq<Seq<char>>)
    ensures
        cue::total_chars(texts) == run_together(texts).len(),
    decreases texts.len(),
{
    if texts.len() > 0 {
        lemma_total_run(texts.drop_last());
    }
}

/// Subtitles that last and follow each other without overlap.
pub open spec fn in_order(list: Seq<SegmentView>) -> bool {
    &&& forall|i: int| 0 <= i < list.len() ==> #[trigger] list[i].start_ms < list[i].end_ms
    &&& forall|i: int, j: int|
        0 <= i < j < list.len() ==> #[trigger] list[i].end_ms <= #[trigger] list[j].start_ms
}

/// What a subtitle is split into ends no later than the subtitle.
pub open spec fn ends_in_time(s: SegmentView, limit: cue::CueLimit) -> bool {
    cue::split_cues(s, limit).last().end_ms <= s.end_ms
}

/// With a millisecond on screen for each character, what a subtitle is split into ends no later than
/// the subtitle. What is not split never does.
pub proof fn law_split_ends_in_time(s: SegmentView, limit: cue::CueLimit)
    requires
        limit.too_long ==> limit.parts > 0 && s.text.len() <= cue::span(s),
    ensures
        ends_in_time(s, limit),
{
    let texts = cue::split_texts(s.text, limit);
    if texts.len() > 0 {
        lemma_split_texts(s.text, limit);
        law_distribute_fills_the_span(s, texts);
    }
}

/// The parts of a subtitle are in order, and inside it if they end in time.
proof fn lemma_split_in_order(s: SegmentView, limit: cue::CueLimit)
    requires
        limit.too_long ==> limit.parts > 0,
        s.start_ms < s.end_ms,
        ends_in_time(s, limit),
    ensures
        in_order(cue::split_cues(s, limit)),
        forall|i: int|
            0 <= i < cue::split_cues(s, limit).len() ==> s.start_ms <= (#[trigger] cue::split_cues(
                s,
                limit,
            )[i]).start_ms && cue::split_cues(s, limit)[i].end_ms <= s.end_ms,
{
    let texts = cue::split_texts(s.text, limit);
    if texts.len() > 0 {
        law_distribute_no_gaps(s, texts);
        let parts = cue::distributed(s, texts);
        let last = parts.len() - 1;
        assert forall|i: int, j: int| 0 <= i < j < parts.len() implies #[trigger] parts[i].end_ms
            <= #[trigger] parts[j].start_ms by {
            lemma_parts_rise(s, texts, i, j);
        }
        assert forall|i: int| 0 <= i < parts.len() implies s.start_ms <= (
        #[trigger] parts[i]).start_ms && parts[i].end_ms <= s.end_ms by {
            if i > 0 {
                cue::lemma_part_end(s, texts, i - 1);
            }
            if i < last {
                assert(parts[i].end_ms <= parts[last].start_ms);
                assert(parts[last].start_ms < parts[last].end_ms);
            }
        }
    }
}

proof fn lemma_parts_rise(s: SegmentView, texts: Seq<Seq<char>>, i: int, j: int)
    requires
        0 <= i < j < texts.len(),
    ensures
        cue::part_end(s, texts, i) <= cue::part_start(s, texts, j),
    decreases j,
{
    if i < j - 1 {
        lemma_parts_rise(s, texts, i, j - 1);
        cue::lemma_part_end(s, texts, j - 1);
    }
}

/// What holds of every subtitle that is laid out.
pub open spec fn shown_well(s: SegmentView, max_line_width: int) -> bool {
    &&& s.text.len() > 0
    &&& spaces::trim(s.text) == s.text
    &&& max_line_width > 0 ==> forall|i: int|
        0 <= i < pieces::split(s.text, seq!['\n']).len() ==> wrap::width(
            #[trigger] pieces::split(s.text, seq!['\n'])[i],
        ) <= wrap::room_for(max_line_width)
}

proof fn lemma_trim_start_head(head: Seq<char>, tail: Seq<char>)
    requires
        !spaces::all_white(head),
    ensures
        spaces::trim_start(head + tail) == spaces::trim_start(head) + tail,
    decreases head.len(),
{
    if head.len() > 0 {
        if spaces::is_white(head[0]) {
            let rest = head.drop_first();
            assert(!spaces::all_white(rest)) by {
                let i = choose|i: int| 0 <= i < head.len() && !spaces::is_white(#[trigger] head[i]);
                assert(rest[i - 1] == head[i]);
            }
            assert((head + tail).drop_first() =~= rest + tail);
            lemma_trim_start_head(rest, tail);
        }
    }
}

/// Trimming a text whose first line is not blank widens no line.
proof fn lemma_trimmed_lines(lines: Seq<Seq<char>>, room: int)
    requires
        lines.len() > 0,
        forall|i: int| 0 <= i < lines.len() ==> wrap_laws::good_line(#[trigger] lines[i], room),
    ensures
        ({
            let text = spaces::trim(pieces::join(lines, seq!['\n']));
            forall|i: int|
                0 <= i < pieces::split(text, seq!['\n']).len() ==> wrap::width(
                    #[trigger] pieces::split(text, seq!['\n'])[i],
                ) <= room
        }),
{
    let n = seq!['\n'];
    let first = lines[0];
    let text = pieces::join(lines, n);
    assert(wrap_laws::good_line(first, room));
    assert(!spaces::all_white(first)) by {
        assert(!spaces::is_white(first[first.len() - 1]));
    }
    spaces::lemma_trim_start(first);
    let short = spaces::trim_start(first);
    let rest = lines.drop_first();
    let all = seq![short] + rest;
    assert(lines =~= seq![first] + rest);
    assert(spaces::trim_start(text) == pieces::join(all, n)) by {
        if rest.len() == 0 {
            assert(lines =~= seq![first]);
            assert(all =~= seq![short]);
        } else {
            piece_laws::lemma_join_cons(first, rest, n);
            piece_laws::lemma_join_cons(short, rest, n);
            let tail = n + pieces::join(rest, n);
            assert(first + n + pieces::join(rest, n) =~= first + tail);
            assert(short + n + pieces::join(rest, n) =~= short + tail);
            lemma_trim_start_head(first, tail);
        }
    }
    let joined = pieces::join(all, n);
    spaces::lemma_blank(first);
    let k = first.len() - short.len();
    assert(short.len() > 0) by {
        if short.len() == 0 {
            assert(first.take(k) =~= first);
        }
    }
    assert(short.last() == first.last());
    assert(joined.len() > 0 && !spaces::is_white(joined.last())) by {
        if rest.len() > 0 {
            assert(wrap_laws::good_line(lines[lines.len() - 1], room));
            assert(all.last() == lines.last());
            assert(joined.last() == all.last().last());
        } else {
            assert(joined == short);
        }
    }
    assert(spaces::trim_end(joined) == joined);
    assert forall|i: int| 0 <= i < all.len() implies piece_laws::lacks(#[trigger] all[i], '\n') by {
        assert(wrap_laws::good_line(lines[i], room));
        if i > 0 {
            assert(all[i] == lines[i]);
        } else {
            assert forall|j: int| 0 <= j < short.len() implies #[trigger] short[j] != '\n' by {
                assert(short[j] == first[k + j]);
            }
        }
    }
    piece_laws::law_join_split(all, '\n');
    assert forall|i: int| 0 <= i < all.len() implies wrap::width(#[trigger] all[i]) <= room by {
        assert(wrap_laws::good_line(lines[i], room));
        if i > 0 {
            assert(all[i] == lines[i]);
        } else {
            assert(first =~= first.take(k) + short);
            wrap::lemma_width_add(first.take(k), short);
        }
    }
}

proof fn lemma_shown_text(text: Seq<char>, max_line_width: int)
    requires
        cue::shown_text(text, max_line_width).len() > 0,
    ensures
        ({
            let shown = cue::shown_text(text, max_line_width);
            &&& spaces::trim(shown) == shown
            &&& max_line_width > 0 ==> forall|i: int|
                0 <= i < pieces::split(shown, seq!['\n']).len() ==> wrap::width(
                    #[trigger] pieces::split(shown, seq!['\n'])[i],
                ) <= wrap::room_for(max_line_width)
        }),
{
    if max_line_width > 0 {
        spaces::lemma_trim_idempotent(wrap::wrapped(text, max_line_width));
        let room = wrap::room_for(max_line_width);
        let lines = wrap::text_lines(text, max_line_width);
        wrap_laws::lemma_text_lines(text, max_line_width);
        if lines.len() > 0 {
            lemma_trimmed_lines(lines, room);
        } else {
            assert(spaces::trim(Seq::<char>::empty()) =~= Seq::<char>::empty());
        }
    } else {
        spaces::lemma_trim_idempotent(text);
    }
}

/// What holds of the subtitles laid out so far.
spec fn laid_well(list: Seq<SegmentView>, max_line_width: int) -> bool {
    forall|i: int|
        0 <= i < list.len() ==> (#[trigger] list[i]).index == i + 1 && shown_well(
            list[i],
            max_line_width,
        )
}

proof fn lemma_shown_parts(done: Seq<SegmentView>, parts: Seq<SegmentView>, max_line_width: int)
    requires
        laid_well(done, max_line_width),
    ensures
        laid_well(cue::shown_parts(done, parts, max_line_width), max_line_width),
    decreases parts.len(),
{
    if parts.len() > 0 {
        lemma_shown_parts(done, parts.drop_last(), max_line_width);
        let text = cue::shown_text(parts.last().text, max_line_width);
        if text.len() > 0 {
            lemma_shown_text(parts.last().text, max_line_width);
        }
    }
}

/// Subtitles that are laid out are numbered from one, have text without white space at its ends,
/// and, where a width is given, no line that is wider.
pub proof fn law_layout(list: Seq<SegmentView>, max_line_width: int, limits: Seq<cue::CueLimit>)
    ensures
        ({
            let out = cue::laid_out(list, max_line_width, limits);
            forall|i: int|
                0 <= i < out.len() ==> (#[trigger] out[i]).index == i + 1 && shown_well(
                    out[i],
                    max_line_width,
                )
        }),
    decreases list.len(),
{
    if list.len() > 0 {
        law_layout(list.drop_last(), max_line_width, limits.drop_last());
        lemma_shown_parts(
            cue::laid_out(list.drop_last(), max_line_width, limits.drop_last()),
            cue::split_cues(list.last(), limits.last()),
            max_line_width,
        );
    }
}

/// Parts that are in order and begin after all that was laid out stay in order.
proof fn lemma_shown_in_order(
    done: Seq<SegmentView>,
    parts: Seq<SegmentView>,
    max_line_width: int,
    from: int,
    to: int,
)
    requires
        in_order(done),
        in_order(parts),
        from <= to,
        forall|i: int| 0 <= i < done.len() ==> (#[trigger] done[i]).end_ms <= from,
        forall|i: int|
            0 <= i < parts.len() ==> from <= (#[trigger] parts[i]).start_ms && parts[i].end_ms
                <= to,
    ensures
        ({
            let all = cue::shown_parts(done, parts, max_line_width);
            &&& in_order(all)
            &&& forall|i: int|
                0 <= i < all.len() ==> (#[trigger] all[i]).end_ms <= (if parts.len() == 0 {
                    from
                } else {
                    parts.last().end_ms
                })
        }),
    decreases parts.len(),
{
    if parts.len() > 0 {
        let front = parts.drop_last();
        assert(in_order(front)) by {
            assert forall|i: int| 0 <= i < front.len() implies #[trigger] front[i].start_ms
                < front[i].end_ms by {
                assert(front[i] == parts[i]);
            }
            assert forall|i: int, j: int| 0 <= i < j < front.len() implies #[trigger] front[i].end_ms
                <= #[trigger] front[j].start_ms by {
                assert(front[i] == parts[i] && front[j] == parts[j]);
            }
        }
        assert forall|i: int| 0 <= i < front.len() implies from <= (#[trigger] front[i]).start_ms
            && front[i].end_ms <= to by {
            assert(front[i] == parts[i]);
        }
        lemma_shown_in_order(done, front, max_line_width, from, to);
        let p = parts[parts.len() - 1];
        if front.len() > 0 {
            assert(front.last() == parts[parts.len() - 2]);
            assert(parts[parts.len() - 2].end_ms <= p.start_ms);
        }
        let before = cue::shown_parts(done, front, max_line_width);
        let all = cue::shown_parts(done, parts, max_line_width);
        assert forall|i: int| 0 <= i < all.len() implies #[trigger] all[i].start_ms
            < all[i].end_ms by {
            if i < before.len() {
                assert(all[i] == before[i]);
            }
        }
        assert forall|i: int, j: int| 0 <= i < j < all.len() implies #[trigger] all[i].end_ms
            <= #[trigger] all[j].start_ms by {
            assert(all[i] == before[i]);
            if j < before.len() {
                assert(all[j] == before[j]);
            }
        }
        assert forall|i: int| 0 <= i < all.len() implies (#[trigger] all[i]).end_ms <= p.end_ms by {
            if i < before.len() {
                assert(all[i] == before[i]);
            }
        }
    }
}

/// Laying out subtitles that do not overlap gives subtitles that do not overlap, if what each of
/// them is split into ends in time.
pub proof fn law_layout_keeps_order(
    list: Seq<SegmentView>,
    max_line_width: int,
    limits: Seq<cue::CueLimit>,
)
    requires
        list.len() == limits.len(),
        in_order(list),
        forall|i: int|
            0 <= i < limits.len() && (#[trigger] limits[i]).too_long ==> limits[i].parts > 0,
        forall|i: int| 0 <= i < list.len() ==> ends_in_time(#[trigger] list[i], limits[i]),
    ensures
        in_order(cue::laid_out(list, max_line_width, limits)),
        forall|i: int|
            0 <= i < cue::laid_out(list, max_line_width, limits).len() ==> (
            #[trigger] cue::laid_out(list, max_line_width, limits)[i]).end_ms
                <= list.last().end_ms,
    decreases list.len(),
{
    if list.len() > 0 {
        let front = list.drop_last();
        let front_limits = limits.drop_last();
        assert forall|i: int| 0 <= i < front.len() implies ends_in_time(
            #[trigger] front[i],
            front_limits[i],
        ) by {
            assert(front[i] == list[i] && front_limits[i] == limits[i]);
        }
        assert forall|i: int|
            0 <= i < front_limits.len() && (
            #[trigger] front_limits[i]).too_long implies front_limits[i].parts > 0 by {
            assert(front_limits[i] == limits[i]);
        }
        assert(in_order(front)) by {
            assert forall|i: int| 0 <= i < front.len() implies #[trigger] front[i].start_ms
                < front[i].end_ms by {
                assert(front[i] == list[i]);
            }
            assert forall|i: int, j: int| 0 <= i < j < front.len() implies #[trigger] front[i].end_ms
                <= #[trigger] front[j].start_ms by {
                assert(front[i] == list[i] && front[j] == list[j]);
            }
        }
        law_layout_keeps_order(front, max_line_width, front_limits);
        let s = list[list.len() - 1];
        assert(limits[limits.len() - 1] == limits.last());
        let done = cue::laid_out(front, max_line_width, front_limits);
        lemma_split_in_order(s, limits.last());
        cue::lemma_split_count(s, limits.last());
        if front.len() > 0 {
            assert(front.last() == list[list.len() - 2]);
            assert(list[list.len() - 2].end_ms <= s.start_ms);
        }
        lemma_shown_in_order(
            done,
            cue::split_cues(s, limits.last()),
            max_line_width,
            s.start_ms,
            s.end_ms,
        );
    }
}

/// The texts of subtitles.
pub open spec fn texts_of(list: Seq<SegmentView>) -> Seq<Seq<char>> {
    list.map_values(|s: SegmentView| s.text)
}

/// The characters of subtitles other than white space.
pub open spec fn ink_of(list: Seq<SegmentView>) -> Seq<char> {
    wrap_laws::inked(run_together(texts_of(list)))
}

proof fn lemma_ink_push(list: Seq<SegmentView>, s: SegmentView)
    ensures
        ink_of(list.push(s)) == ink_of(list) + wrap_laws::inked(s.text),
{
    assert(texts_of(list.push(s)) =~= texts_of(list).push(s.text));
    lemma_run_push(texts_of(list), s.text);
    wrap_laws::lemma_inked_add(run_together(texts_of(list)), s.text);
}

proof fn lemma_ink_none()
    ensures
        ink_of(Seq::<SegmentView>::empty()) == Seq::<char>::empty(),
{
    assert(texts_of(Seq::<SegmentView>::empty()) =~= Seq::<Seq<char>>::empty());
}

/// What is shown of a text has all of its characters, white space apart.
proof fn lemma_shown_ink(text: Seq<char>, max_line_width: int)
    ensures
        wrap_laws::inked(cue::shown_text(text, max_line_width)) == wrap_laws::inked(text),
{
    wrap_laws::law_wrap_keeps_text(text, max_line_width);
    wrap_laws::lemma_inked_trim(wrap::wrapped(text, max_line_width));
    wrap_laws::lemma_inked_trim(text);
}

proof fn lemma_shown_parts_ink(
    done: Seq<SegmentView>,
    parts: Seq<SegmentView>,
    max_line_width: int,
)
    ensures
        ink_of(cue::shown_parts(done, parts, max_line_width)) == ink_of(done) + ink_of(parts),
    decreases parts.len(),
{
    if parts.len() == 0 {
        assert(parts =~= Seq::<SegmentView>::empty());
        lemma_ink_none();
        assert(ink_of(done) + Seq::<char>::empty() =~= ink_of(done));
    } else {
        let front = parts.drop_last();
        let p = parts.last();
        lemma_shown_parts_ink(done, front, max_line_width);
        assert(parts =~= front.push(p));
        lemma_ink_push(front, p);
        lemma_shown_ink(p.text, max_line_width);
        let before = cue::shown_parts(done, front, max_line_width);
        let text = cue::shown_text(p.text, max_line_width);
        let ink = wrap_laws::inked(p.text);
        assert((ink_of(done) + ink_of(front)) + ink =~= ink_of(done) + (ink_of(front) + ink));
        if text.len() == 0 {
            assert(ink =~= Seq::<char>::empty());
            assert(ink_of(before) + ink =~= ink_of(before));
        } else {
            lemma_ink_push(
                before,
                SegmentView {
                    index: before.len() as int + 1,
                    start_ms: p.start_ms,
                    end_ms: p.end_ms,
                    text,
                },
            );
        }
    }
}

proof fn lemma_split_ink(s: SegmentView, limit: cue::CueLimit)
    requires
        limit.too_long ==> limit.parts > 0,
    ensures
        ink_of(cue::split_cues(s, limit)) == wrap_laws::inked(s.text),
{
    let texts = cue::split_texts(s.text, limit);
    if texts.len() == 0 {
        let none = Seq::<SegmentView>::empty();
        assert(seq![s] =~= none.push(s));
        lemma_ink_none();
        lemma_ink_push(none, s);
        assert(Seq::<char>::empty() + wrap_laws::inked(s.text) =~= wrap_laws::inked(s.text));
    } else {
        law_split_keeps_text(s.text, limit);
        assert(texts_of(cue::distributed(s, texts)) =~= texts);
    }
}

/// Laying out subtitles loses no character of their texts and adds none, white space apart.
pub proof fn law_layout_keeps_text(
    list: Seq<SegmentView>,
    max_line_width: int,
    limits: Seq<cue::CueLimit>,
)
    requires
        list.len() == limits.len(),
        forall|i: int|
            0 <= i < limits.len() && (#[trigger] limits[i]).too_long ==> limits[i].parts > 0,
    ensures
        ink_of(cue::laid_out(list, max_line_width, limits)) == ink_of(list),
    decreases list.len(),
{
    if list.len() > 0 {
        let front = list.drop_last();
        let front_limits = limits.drop_last();
        assert forall|i: int|
            0 <= i < front_limits.len() && (
            #[trigger] front_limits[i]).too_long implies front_limits[i].parts > 0 by {
            assert(front_limits[i] == limits[i]);
        }
        law_layout_keeps_text(front, max_line_width, front_limits);
        assert(limits[limits.len() - 1] == limits.last());
        lemma_split_ink(list.last(), limits.last());
        lemma_shown_parts_ink(
            cue::laid_out(front, max_line_width, front_limits),
            cue::split_cues(list.last(), limits.last()),
            max_line_width,
        );
        assert(list =~= front.push(list.last()));
        lemma_ink_push(front, list.last());
    } else {
        assert(list =~= Seq::<SegmentView>::empty());
    }
}

} // verus!
