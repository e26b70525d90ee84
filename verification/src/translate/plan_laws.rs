//! What goes into a batch and into a chunk.

use vstd::prelude::*;

use crate::translate::{batches, context};
use crate::types::SegmentView;

verus! {

/// The characters of the subtitles from `lo` up to `hi`, where one without text counts for one.
pub open spec fn chars_between(list: Seq<SegmentView>, lo: int, hi: int) -> int
    decreases hi - lo,
{
    if hi <= lo {
        0
    } else {
        chars_between(list, lo, hi - 1) + (if list[hi - 1].text.len() == 0 {
            1
        } else {
            list[hi - 1].text.len() as int
        })
    }
}

proof fn lemma_chars(list: Seq<SegmentView>, lo: int, hi: int)
    requires
        0 <= lo,
        hi <= list.len(),
    ensures
        batches::run_weight(batches::weights(list), lo, hi) == chars_between(list, lo, hi),
    decreases hi - lo,
{
    if lo < hi {
        lemma_chars(list, lo, hi - 1);
    }
}

/// Batches follow each other from the first subtitle to the last. None has more subtitles than
/// `batch_size`, and none more characters than `batch_chars` unless it is a single subtitle; and each
/// is full: one more subtitle would be too many, or too many characters.
pub proof fn law_batches_keep_the_limits(
    list: Seq<SegmentView>,
    batch_size: int,
    batch_chars: int,
    k: int,
)
    requires
        batch_size >= 1,
        batch_chars >= 64,
        0 <= k < batches::planned(list, batch_size, batch_chars).len(),
    ensures
        ({
            let plan = batches::planned(list, batch_size, batch_chars);
            let (lo, hi) = plan[k];
            &&& lo == (if k == 0 {
                0
            } else {
                plan[k - 1].1
            })
            &&& k == plan.len() - 1 ==> hi == list.len()
            &&& 0 < hi - lo <= batch_size
            &&& hi <= list.len()
            &&& hi - lo == 1 || chars_between(list, lo, hi) <= batch_chars
            &&& hi < list.len() ==> hi - lo == batch_size || chars_between(list, lo, hi + 1)
                > batch_chars
        }),
{
    let plan = batches::planned(list, batch_size, batch_chars);
    batches::law_plan_batches(list, batch_size, batch_chars);
    batches::lemma_tiles(plan, 0, list.len() as int);
    assert(batches::run_fits(batches::weights(list), plan[k], batch_size, batch_chars));
    assert(plan[plan.len() - 1] == plan.last());
    let (lo, hi) = plan[k];
    lemma_chars(list, lo, hi);
    if hi < list.len() {
        lemma_chars(list, lo, hi + 1);
    }
}

/// Limits that are too low are raised: a batch may have one subtitle and 64 characters in any case.
pub proof fn law_low_limits_are_raised(list: Seq<SegmentView>, batch_size: int, batch_chars: int)
    ensures
        batch_size < 1 ==> batches::planned(list, batch_size, batch_chars) == batches::planned(
            list,
            1,
            batch_chars,
        ),
        batch_chars < 64 ==> batches::planned(list, batch_size, batch_chars) == batches::planned(
            list,
            batch_size,
            64,
        ),
        list.len() > 0 ==> batches::planned(list, batch_size, batch_chars).len() > 0,
{
    batches::law_plan_batches(list, batch_size, batch_chars);
    batches::lemma_tiles(
        batches::planned(list, batch_size, batch_chars),
        0,
        list.len() as int,
    );
}

/// The tokens of the subtitles from `lo` up to `hi`, and one for the line break after each.
pub open spec fn tokens_between(counts: Seq<usize>, lo: int, hi: int) -> int
    decreases hi - lo,
{
    if hi <= lo {
        0
    } else {
        tokens_between(counts, lo, hi - 1) + counts[hi - 1] + 1
    }
}

proof fn lemma_tokens(counts: Seq<usize>, lo: int, hi: int)
    requires
        0 <= lo,
        hi <= counts.len(),
    ensures
        batches::run_weight(batches::token_weights(counts), lo, hi) == tokens_between(
            counts,
            lo,
            hi,
        ),
    decreases hi - lo,
{
    if lo < hi {
        lemma_tokens(counts, lo, hi - 1);
    }
}

/// Chunks follow each other from the first subtitle to the last. None has more tokens than the budget
/// unless it is a single subtitle, and each is full.
pub proof fn law_chunks_are_full(counts: Seq<usize>, budget: int, k: int)
    requires
        counts.len() < usize::MAX,
        0 <= k < batches::chunk_plan(counts, budget).len(),
    ensures
        ({
            let plan = batches::chunk_plan(counts, budget);
            let (lo, hi) = plan[k];
            &&& lo == (if k == 0 {
                0
            } else {
                plan[k - 1].1
            })
            &&& k == plan.len() - 1 ==> hi == counts.len()
            &&& 0 <= lo < hi <= counts.len()
            &&& hi - lo == 1 || tokens_between(counts, lo, hi) <= budget
            &&& hi < counts.len() ==> tokens_between(counts, lo, hi + 1) > budget
        }),
{
    let plan = batches::chunk_plan(counts, budget);
    let w = batches::token_weights(counts);
    batches::lemma_runs_from(w, 0, usize::MAX as int, budget);
    batches::lemma_tiles(plan, 0, counts.len() as int);
    assert(batches::run_fits(w, plan[k], usize::MAX as int, budget));
    assert(plan[plan.len() - 1] == plan.last());
    let (lo, hi) = plan[k];
    lemma_tokens(counts, lo, hi);
    if hi < counts.len() {
        lemma_tokens(counts, lo, hi + 1);
    }
}

/// The text of a chunk is that of its subtitles.
pub proof fn law_chunks_hold_their_subtitles(
    list: Seq<SegmentView>,
    plan: Seq<(int, int)>,
    k: int,
)
    requires
        0 <= k < plan.len(),
    ensures
        context::chunk_texts(list, plan).len() == plan.len(),
        context::chunk_texts(list, plan)[k] == context::transcript(
            list.subrange(plan[k].0, plan[k].1),
        ),
{
}

} // verus!
