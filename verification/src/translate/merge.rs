//! Putting replies back into the subtitles.

use vstd::prelude::*;

use crate::text::chars::{chars_of, same_chars, string_of};
use crate::text::spaces::trim_of;
use crate::text::spaces;
use crate::translate::ask::count_up;
use crate::translate::copies::{find_item, has_residual_script, looks_copied};
use crate::translate::{ask, copies, prompts};
use crate::types;
use crate::types::{ItemView, SegmentView, SubtitleSegment, TranslateItem, TranslateStats};

verus! {

/// The item for the subtitle at a position: the one with its number, or else, if there are as many
/// items as subtitles, the one at its position.
pub open spec fn chosen_item(
    batch: Seq<SegmentView>,
    items: Seq<ItemView>,
    pos: int,
) -> Option<ItemView> {
    match copies::item_for(items, batch[pos].index) {
        Some(it) => Some(it),
        None => if items.len() == batch.len() {
            Some(items[pos])
        } else {
            None
        },
    }
}

/// The item's text, if there is any.
pub open spec fn item_text(it: Option<ItemView>) -> Option<Seq<char>> {
    match it {
        Some(it) => if spaces::trim(it.t).len() > 0 {
            Some(spaces::trim(it.t))
        } else {
            None
        },
        None => None,
    }
}

/// The subtitle with its new text; it keeps its own if there is none. Its number and its times stay.
pub open spec fn translated_cue(
    batch: Seq<SegmentView>,
    items: Seq<ItemView>,
    pos: int,
) -> SegmentView {
    SegmentView {
        text: match item_text(chosen_item(batch, items, pos)) {
            Some(t) => t,
            None => batch[pos].text,
        },
        ..batch[pos]
    }
}

/// A batch with the texts of a reply.
pub open spec fn merged(batch: Seq<SegmentView>, items: Seq<ItemView>) -> Seq<SegmentView> {
    Seq::new(batch.len(), |pos: int| translated_cue(batch, items, pos))
}

/// The counters after one subtitle has got its text.
pub open spec fn merge_counted(
    stats: TranslateStats,
    batch: Seq<SegmentView>,
    items: Seq<ItemView>,
    pos: int,
) -> TranslateStats {
    let by_position = copies::item_for(items, batch[pos].index) is None && items.len() == batch.len();
    let kept = item_text(chosen_item(batch, items, pos)) is None;
    let copy = copies::copied(batch[pos].text, translated_cue(batch, items, pos).text);
    TranslateStats {
        positional: ask::plus(stats.positional, if by_position { 1 } else { 0 }),
        untranslated: ask::plus(stats.untranslated, if kept { 1 } else { 0 }),
        copied: ask::plus(stats.copied, if copy { 1 } else { 0 }),
        ..stats
    }
}

/// The counters after the first `k` subtitles of a batch have got their texts.
pub open spec fn merge_stats(
    stats: TranslateStats,
    batch: Seq<SegmentView>,
    items: Seq<ItemView>,
    k: int,
) -> TranslateStats
    decreases k,
{
    if k <= 0 {
        stats
    } else {
        merge_counted(merge_stats(stats, batch, items, k - 1), batch, items, k - 1)
    }
}

/// The text of an item without white space around it, if there is any.
fn text_of(it: &TranslateItem) -> (r: Option<String>)
    ensures
        match r {
            Some(t) => item_text(Some(it@)) == Some(t@),
            None => item_text(Some(it@)) is None,
        },
{
    let v = chars_of(it.t.as_str());
    let t = trim_of(v.as_slice());
    if t.len() > 0 {
        Some(string_of(t))
    } else {
        None
    }
}

/// Adds a batch with the texts of a reply to the translated subtitles.
pub fn merge_batch(
    batch: &[SubtitleSegment],
    items: &Vec<TranslateItem>,
    out: &mut Vec<SubtitleSegment>,
    stats: &mut TranslateStats,
)
    ensures
        types::cues(final(out)@) == types::cues(old(out)@) + merged(
            types::cues(batch@),
            types::entries(items@),
        ),
        *final(stats) == merge_stats(
            *old(stats),
            types::cues(batch@),
            types::entries(items@),
            batch@.len() as int,
        ),
{
    let ghost all = types::cues(batch@);
    let ghost list = types::entries(items@);
    let ghost want = merged(all, list);
    let ghost before = types::cues(out@);
    let ghost first = *stats;
    assert(list.len() == items@.len());
    assert(before + want.take(0) =~= before);
    for pos in 0..batch.len()
        invariant
            all == types::cues(batch@),
            list == types::entries(items@),
            list.len() == items@.len(),
            want == merged(all, list),
            types::cues(out@) == before + want.take(pos as int),
            *stats == merge_stats(first, all, list, pos as int),
    {
        let seg: &SubtitleSegment = &batch[pos];
        assert(all[pos as int] == seg@);
        let mut item: Option<usize> = find_item(items, seg.index);
        if item.is_none() && items.len() == batch.len() {
            stats.positional = count_up(stats.positional, 1);
            item = Some(pos);
            assert(list[pos as int] == items@[pos as int]@);
        }
        let text: Option<String> = match item {
            Some(k) => {
                assert(chosen_item(all, list, pos as int) == Some(items@[k as int]@));
                text_of(&items[k])
            },
            None => None,
        };
        let text: String = match text {
            Some(t) => t,
            None => {
                stats.untranslated = count_up(stats.untranslated, 1);
                seg.text.clone()
            },
        };
        if looks_copied(seg.text.as_str(), text.as_str()) {
            stats.copied = count_up(stats.copied, 1);
        }
        let ghost so_far = types::cues(out@);
        out.push(
            SubtitleSegment {
                index: seg.index,
                start_ms: seg.start_ms,
                end_ms: seg.end_ms,
                text,
            },
        );
        proof {
            let cue = out@.last()@;
            assert(types::cues(out@) =~= so_far.push(cue));
            assert(cue == want[pos as int]);
            assert(before + want.take(pos + 1) =~= (before + want.take(pos as int)).push(cue));
        }
    }
    assert(want.take(batch@.len() as int) =~= want);
}

/// The first of the positions `picks` whose subtitle has this number.
pub open spec fn pick_for(translated: Seq<SegmentView>, picks: Seq<int>, i: int) -> Option<int>
    decreases picks.len(),
{
    if picks.len() == 0 {
        None
    } else if translated[picks[0]].index == i {
        Some(picks[0])
    } else {
        pick_for(translated, picks.drop_first(), i)
    }
}

/// The position that a correction changes, if it changes any: one under review, to a text that is
/// new, not blank, and no copy of the source.
pub open spec fn fix_target(
    sources: Seq<SegmentView>,
    translated: Seq<SegmentView>,
    picks: Seq<int>,
    fix: ItemView,
) -> Option<int> {
    let text = spaces::trim(fix.t);
    match pick_for(translated, picks, fix.i) {
        Some(p) => if text.len() > 0 && spaces::trim(translated[p].text) != text && !copies::copied(
            sources[p].text,
            text,
        ) {
            Some(p)
        } else {
            None
        },
        None => None,
    }
}

/// The subtitles after one correction.
pub open spec fn fixed_once(
    sources: Seq<SegmentView>,
    translated: Seq<SegmentView>,
    picks: Seq<int>,
    fix: ItemView,
) -> Seq<SegmentView> {
    match fix_target(sources, translated, picks, fix) {
        Some(p) => translated.update(
            p,
            SegmentView { text: spaces::trim(fix.t), ..translated[p] },
        ),
        None => translated,
    }
}

/// The subtitles after a list of corrections, and how many of these changed something.
pub open spec fn fixed(
    sources: Seq<SegmentView>,
    translated: Seq<SegmentView>,
    picks: Seq<int>,
    fixes: Seq<ItemView>,
) -> (Seq<SegmentView>, nat)
    decreases fixes.len(),
{
    if fixes.len() == 0 {
        (translated, 0)
    } else {
        let (before, n) = fixed(sources, translated, picks, fixes.drop_last());
        let target = fix_target(sources, before, picks, fixes.last());
        (
            fixed_once(sources, before, picks, fixes.last()),
            if target is Some {
                n + 1
            } else {
                n
            },
        )
    }
}

/// The positions are positions of both lists.
pub open spec fn picks_valid(picks: Seq<usize>, a: int, b: int) -> bool {
    forall|k: int| 0 <= k < picks.len() ==> #[trigger] picks[k] < a && picks[k] < b
}

fn find_pick(translated: &Vec<SubtitleSegment>, picks: &Vec<usize>, i: i64) -> (r: Option<usize>)
    requires
        picks_valid(picks@, translated@.len() as int, translated@.len() as int),
    ensures
        match r {
            Some(p) => p < translated@.len() && prompts::positions(picks@).contains(p as int) && pick_for(
                types::cues(translated@),
                prompts::positions(picks@),
                i as int,
            ) == Some(p as int),
            None => pick_for(types::cues(translated@), prompts::positions(picks@), i as int) is None,
        },
{
    let ghost all = prompts::positions(picks@);
    let ghost out = types::cues(translated@);
    assert(all.skip(0) =~= all);
    for k in 0..picks.len()
        invariant
            all == prompts::positions(picks@),
            out == types::cues(translated@),
            picks_valid(picks@, translated@.len() as int, translated@.len() as int),
            pick_for(out, all, i as int) == pick_for(out, all.skip(k as int), i as int),
    {
        let p: usize = picks[k];
        assert(all.skip(k as int)[0] == p);
        assert(all[k as int] == p);
        if i >= 0 && i as u64 as u128 == translated[p].index as u128 {
            return Some(p);
        }
        assert(all.skip(k as int).drop_first() =~= all.skip(k + 1));
    }
    assert(all.skip(picks@.len() as int) =~= Seq::<int>::empty());
    None
}

/// Applies the corrections of a review to the translations at the positions `picks`.
pub fn apply_fixes(
    sources: &Vec<SubtitleSegment>,
    translated: &mut Vec<SubtitleSegment>,
    picks: &Vec<usize>,
    fixes: &Vec<TranslateItem>,
) -> (n: usize)
    requires
        picks_valid(picks@, sources@.len() as int, old(translated)@.len() as int),
    ensures
        final(translated)@.len() == old(translated)@.len(),
        (types::cues(final(translated)@), n as nat) == fixed(
            types::cues(sources@),
            types::cues(old(translated)@),
            prompts::positions(picks@),
            types::entries(fixes@),
        ),
{
    let ghost src = types::cues(sources@);
    let ghost all = prompts::positions(picks@);
    let ghost list = types::entries(fixes@);
    let ghost start = types::cues(translated@);
    let mut n: usize = 0;
    assert(list.take(0) =~= Seq::<ItemView>::empty());
    for k in 0..fixes.len()
        invariant
            src == types::cues(sources@),
            all == prompts::positions(picks@),
            list == types::entries(fixes@),
            start == types::cues(old(translated)@),
            translated@.len() == old(translated)@.len(),
            picks_valid(picks@, sources@.len() as int, translated@.len() as int),
            n <= k,
            (types::cues(translated@), n as nat) == fixed(src, start, all, list.take(k as int)),
    {
        let ghost before = types::cues(translated@);
        let fix = &fixes[k];
        proof {
            assert(list.take(k + 1).drop_last() =~= list.take(k as int));
            assert(list.take(k + 1).last() == fix@);
        }
        let v = chars_of(fix.t.as_str());
        let text = trim_of(v.as_slice());
        if let Some(p) = find_pick(translated, picks, fix.i) {
            proof {
                let q = choose|q: int| 0 <= q < all.len() && all[q] == p;
                assert(picks@[q] == p);
            }
            let old_chars = chars_of(translated[p].text.as_str());
            if text.len() > 0 && !same_chars(trim_of(old_chars.as_slice()), text) {
                let new_text = string_of(text);
                if !looks_copied(sources[p].text.as_str(), new_text.as_str()) {
                    let held = &translated[p];
                    let cue = SubtitleSegment {
                        index: held.index,
                        start_ms: held.start_ms,
                        end_ms: held.end_ms,
                        text: new_text,
                    };
                    translated.set(p, cue);
                    n = n + 1;
                    assert(types::cues(translated@) =~= before.update(p as int, cue@));
                }
            }
        }
    }
    assert(list.take(fixes@.len() as int) =~= list);
    n
}

/// The positions among `picks` whose translation still holds text in the script.
pub open spec fn still_residual(
    translated: Seq<SegmentView>,
    picks: Seq<int>,
    script: Seq<char>,
) -> Seq<int>
    decreases picks.len(),
{
    if picks.len() == 0 {
        Seq::empty()
    } else {
        let front = still_residual(translated, picks.drop_last(), script);
        if copies::residual(translated[picks.last()].text, script) {
            front.push(picks.last())
        } else {
            front
        }
    }
}

/// What is still to be done is part of what there was.
pub proof fn lemma_still_residual(
    translated: Seq<SegmentView>,
    picks: Seq<int>,
    script: Seq<char>,
)
    ensures
        still_residual(translated, picks, script).len() <= picks.len(),
        forall|k: int|
            0 <= k < still_residual(translated, picks, script).len() ==> picks.contains(
                #[trigger] still_residual(translated, picks, script)[k],
            ),
    decreases picks.len(),
{
    if picks.len() > 0 {
        let front = picks.drop_last();
        lemma_still_residual(translated, front, script);
        let left = still_residual(translated, front, script);
        assert forall|k: int|
            0 <= k < still_residual(translated, picks, script).len() implies picks.contains(
            #[trigger] still_residual(translated, picks, script)[k],
        ) by {
            if k < left.len() {
                let x = left[k];
                assert(front.contains(x));
                let j = choose|j: int| 0 <= j < front.len() && front[j] == x;
                assert(picks[j] == x);
            } else {
                assert(picks[picks.len() - 1] == picks.last());
            }
        }
    }
}

/// The positions among `picks` whose translation still holds text in the script.
pub fn find_residual(
    translated: &Vec<SubtitleSegment>,
    picks: &Vec<usize>,
    script: &str,
) -> (r: Vec<usize>)
    requires
        picks_valid(picks@, translated@.len() as int, translated@.len() as int),
    ensures
        prompts::positions(r@) == still_residual(types::cues(translated@), prompts::positions(picks@), script@),
        r@.len() <= picks@.len(),
        picks_valid(r@, translated@.len() as int, translated@.len() as int),
{
    let ghost all = prompts::positions(picks@);
    let ghost out = types::cues(translated@);
    let mut r: Vec<usize> = Vec::new();
    assert(prompts::positions(r@) =~= still_residual(out, all.take(0), script@));
    for k in 0..picks.len()
        invariant
            all == prompts::positions(picks@),
            out == types::cues(translated@),
            picks_valid(picks@, translated@.len() as int, translated@.len() as int),
            picks_valid(r@, translated@.len() as int, translated@.len() as int),
            r@.len() <= k,
            prompts::positions(r@) == still_residual(out, all.take(k as int), script@),
    {
        let ghost before = prompts::positions(r@);
        let p: usize = picks[k];
        assert(all.take(k + 1).drop_last() =~= all.take(k as int));
        assert(all.take(k + 1).last() == p);
        if has_residual_script(translated[p].text.as_str(), script) {
            r.push(p);
            assert(prompts::positions(r@) =~= before.push(p as int));
        }
    }
    assert(all.take(picks@.len() as int) =~= all);
    r
}

/// The same subtitles at the same times under the same numbers, whatever their texts.
pub open spec fn same_timeline(a: Seq<SegmentView>, b: Seq<SegmentView>) -> bool {
    &&& a.len() == b.len()
    &&& forall|i: int|
        0 <= i < a.len() ==> {
            &&& #[trigger] a[i].index == b[i].index
            &&& a[i].start_ms == b[i].start_ms
            &&& a[i].end_ms == b[i].end_ms
        }
}

/// Putting a reply into a batch changes no number and no time.
pub proof fn law_merge_keeps_the_timeline(batch: Seq<SegmentView>, items: Seq<ItemView>)
    ensures
        same_timeline(merged(batch, items), batch),
{
}

/// A subtitle gets the text that the reply has under its number. If the reply has nothing under its
/// number, but as many texts as there are subtitles, it gets the text at its position. Where there
/// is no such text, or a blank one, it keeps its own.
pub proof fn law_merge_uses_every_text(batch: Seq<SegmentView>, items: Seq<ItemView>, pos: int)
    requires
        0 <= pos < batch.len(),
    ensures
        ({
            let text = merged(batch, items)[pos].text;
            match copies::item_for(items, batch[pos].index) {
                Some(it) => text == (if spaces::trim(it.t).len() > 0 {
                    spaces::trim(it.t)
                } else {
                    batch[pos].text
                }),
                None => text == (if items.len() == batch.len() && spaces::trim(items[pos].t).len()
                    > 0 {
                    spaces::trim(items[pos].t)
                } else {
                    batch[pos].text
                }),
            }
        }),
{
}

/// A review changes no number and no time, and nothing outside the positions under review.
pub proof fn law_fixes_keep_the_timeline(
    sources: Seq<SegmentView>,
    translated: Seq<SegmentView>,
    picks: Seq<int>,
    fixes: Seq<ItemView>,
)
    requires
        forall|k: int| 0 <= k < picks.len() ==> 0 <= #[trigger] picks[k] < translated.len(),
    ensures
        same_timeline(fixed(sources, translated, picks, fixes).0, translated),
        forall|p: int|
            0 <= p < translated.len() && !picks.contains(p) ==> #[trigger] fixed(
                sources,
                translated,
                picks,
                fixes,
            ).0[p] == translated[p],
    decreases fixes.len(),
{
    if fixes.len() > 0 {
        law_fixes_keep_the_timeline(sources, translated, picks, fixes.drop_last());
        let before = fixed(sources, translated, picks, fixes.drop_last()).0;
        lemma_pick_for(before, picks, fixes.last().i);
    }
}

proof fn lemma_pick_for(translated: Seq<SegmentView>, picks: Seq<int>, i: int)
    ensures
        match pick_for(translated, picks, i) {
            Some(p) => picks.contains(p) && translated[p].index == i,
            None => true,
        },
    decreases picks.len(),
{
    if picks.len() > 0 {
        assert(picks.contains(picks[0]));
        let rest = picks.drop_first();
        lemma_pick_for(translated, rest, i);
        match pick_for(translated, rest, i) {
            Some(p) => {
                let k = choose|k: int| 0 <= k < rest.len() && rest[k] == p;
                if rest.contains(p) {
                    assert(picks[k + 1] == p);
                }
            },
            None => {},
        }
    }
}

/// Every translation of a subtitle with text has text. The translations are those of the first
/// subtitles.
pub open spec fn texts_stay(sources: Seq<SegmentView>, translated: Seq<SegmentView>) -> bool {
    &&& translated.len() <= sources.len()
    &&& forall|i: int|
        0 <= i < translated.len() && spaces::trim(sources[i].text).len() > 0 ==> spaces::trim(
            #[trigger] translated[i].text,
        ).len() > 0
}

/// Putting a reply into a batch leaves no subtitle with text without.
pub proof fn law_merge_leaves_text(batch: Seq<SegmentView>, items: Seq<ItemView>)
    ensures
        texts_stay(batch, merged(batch, items)),
{
    let out = merged(batch, items);
    assert forall|i: int|
        0 <= i < out.len() && spaces::trim(batch[i].text).len() > 0 implies spaces::trim(
        #[trigger] out[i].text,
    ).len() > 0 by {
        if let Some(it) = chosen_item(batch, items, i) {
            spaces::lemma_trim_idempotent(it.t);
        }
    }
}

/// A review leaves no subtitle with text without.
pub proof fn law_fixes_leave_text(
    sources: Seq<SegmentView>,
    translated: Seq<SegmentView>,
    picks: Seq<int>,
    fixes: Seq<ItemView>,
)
    requires
        forall|k: int| 0 <= k < picks.len() ==> 0 <= #[trigger] picks[k] < translated.len(),
        texts_stay(sources, translated),
    ensures
        texts_stay(sources, fixed(sources, translated, picks, fixes).0),
    decreases fixes.len(),
{
    if fixes.len() > 0 {
        let front = fixes.drop_last();
        law_fixes_leave_text(sources, translated, picks, front);
        law_fixes_keep_the_timeline(sources, translated, picks, front);
        let before = fixed(sources, translated, picks, front).0;
        lemma_pick_for(before, picks, fixes.last().i);
        spaces::lemma_trim_idempotent(fixes.last().t);
    }
}

} // verus!
