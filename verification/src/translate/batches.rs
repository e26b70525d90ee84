//! Cutting the subtitles into batches for translation and chunks for the summary.

use vstd::prelude::*;

use crate::text::chars::char_count;
use crate::types;
use crate::types::{SegmentView, SubtitleSegment};

verus! {

/// The weights from `lo` up to `hi` together.
pub open spec fn run_weight(w: Seq<int>, lo: int, hi: int) -> int
    decreases hi - lo,
{
    if hi <= lo {
        0
    } else {
        run_weight(w, lo, hi - 1) + w[hi - 1]
    }
}

/// The end of the run that starts at `lo`, given that what stands before `hi` is in it: the run goes
/// on while it is shorter than `max_n` and the next weight fits.
pub open spec fn run_end(w: Seq<int>, lo: int, hi: int, max_n: int, max_total: int) -> int
    decreases w.len() - hi,
{
    if hi >= w.len() || hi - lo >= max_n || run_weight(w, lo, hi + 1) > max_total {
        hi
    } else {
        run_end(w, lo, hi + 1, max_n, max_total)
    }
}

/// The runs from `lo` on. A run is never empty.
pub open spec fn runs_from(w: Seq<int>, lo: int, max_n: int, max_total: int) -> Seq<(int, int)>
    decreases w.len() - lo,
{
    if lo >= w.len() {
        Seq::empty()
    } else {
        let hi = run_end(w, lo, lo + 1, max_n, max_total);
        if hi <= lo || hi > w.len() {
            Seq::empty()
        } else {
            seq![(lo, hi)] + runs_from(w, hi, max_n, max_total)
        }
    }
}

pub open spec fn ranges(list: Seq<(usize, usize)>) -> Seq<(int, int)> {
    list.map_values(|r: (usize, usize)| (r.0 as int, r.1 as int))
}

pub open spec fn numbers(list: Seq<u128>) -> Seq<int> {
    list.map_values(|x: u128| x as int)
}

/// Cuts a list of weights into runs of at most `max_n` that weigh at most `max_total`; a run has
/// one weight at least.
pub fn cut_runs(w: &Vec<u128>, max_n: usize, max_total: u128) -> (r: Vec<(usize, usize)>)
    requires
        max_n >= 1,
    ensures
        ranges(r@) == runs_from(numbers(w@), 0, max_n as int, max_total as int),
{
    let ghost all = numbers(w@);
    let ghost want = runs_from(all, 0, max_n as int, max_total as int);
    let n: usize = w.len();
    let mut out: Vec<(usize, usize)> = Vec::new();
    let mut start: usize = 0;
    assert(ranges(out@) + want =~= want);
    while start < n
        invariant
            n == w@.len(),
            start <= n,
            all == numbers(w@),
            max_n >= 1,
            want == runs_from(all, 0, max_n as int, max_total as int),
            ranges(out@) + runs_from(all, start as int, max_n as int, max_total as int) == want,
        decreases n - start,
    {
        let mut total: u128 = w[start];
        let mut end: usize = start + 1;
        let mut going: bool = true;
        proof {
            reveal_with_fuel(run_weight, 2);
        }
        assert(total == run_weight(all, start as int, end as int));
        while going && end < n
            invariant
                n == w@.len(),
                all == numbers(w@),
                start < end <= n,
                going ==> total == run_weight(all, start as int, end as int),
                going ==> run_end(
                    all,
                    start as int,
                    start + 1,
                    max_n as int,
                    max_total as int,
                ) == run_end(all, start as int, end as int, max_n as int, max_total as int),
                !going ==> run_end(
                    all,
                    start as int,
                    start + 1,
                    max_n as int,
                    max_total as int,
                ) == end,
            decreases (if going {
                n - end + 1
            } else {
                0
            }),
        {
            assert(all[end as int] == w@[end as int]);
            if end - start >= max_n || total > max_total || w[end] > max_total - total {
                going = false;
            } else {
                total = total + w[end];
                end = end + 1;
            }
        }
        let ghost before = ranges(out@);
        out.push((start, end));
        proof {
            assert(ranges(out@) =~= before.push((start as int, end as int)));
            let rest = runs_from(all, end as int, max_n as int, max_total as int);
            assert(before + (seq![(start as int, end as int)] + rest) =~= before.push(
                (start as int, end as int),
            ) + rest);
        }
        start = end;
    }
    proof {
        assert(runs_from(all, start as int, max_n as int, max_total as int) =~= Seq::empty());
        assert(ranges(out@) + Seq::<(int, int)>::empty() =~= ranges(out@));
    }
    out
}

/// The runs cover the list from `lo` to `hi` one after the other, without gap or overlap.
pub open spec fn tiles(plan: Seq<(int, int)>, lo: int, hi: int) -> bool
    decreases plan.len(),
{
    if plan.len() == 0 {
        lo == hi
    } else {
        plan[0].0 == lo && lo < plan[0].1 && tiles(plan.drop_first(), plan[0].1, hi)
    }
}

/// What holds of a run: it is within both limits, unless it is a single weight, and the next one
/// would not have fitted.
pub open spec fn run_fits(w: Seq<int>, b: (int, int), max_n: int, max_total: int) -> bool {
    &&& 0 <= b.0 < b.1 <= w.len()
    &&& b.1 - b.0 <= max_n
    &&& run_weight(w, b.0, b.1) <= max_total || b.1 == b.0 + 1
    &&& b.1 < w.len() ==> b.1 - b.0 >= max_n || run_weight(w, b.0, b.1 + 1) > max_total
}

proof fn lemma_run_end(w: Seq<int>, lo: int, hi: int, max_n: int, max_total: int)
    requires
        0 <= lo < hi <= w.len(),
        hi - lo <= max_n,
        run_weight(w, lo, hi) <= max_total || hi == lo + 1,
    ensures
        run_fits(w, (lo, run_end(w, lo, hi, max_n, max_total)), max_n, max_total),
        hi <= run_end(w, lo, hi, max_n, max_total),
    decreases w.len() - hi,
{
    if !(hi >= w.len() || hi - lo >= max_n || run_weight(w, lo, hi + 1) > max_total) {
        lemma_run_end(w, lo, hi + 1, max_n, max_total);
    }
}

/// The runs cover the whole list, and each is as long as the limits allow.
pub proof fn lemma_runs_from(w: Seq<int>, lo: int, max_n: int, max_total: int)
    requires
        0 <= lo <= w.len(),
        max_n >= 1,
    ensures
        tiles(runs_from(w, lo, max_n, max_total), lo, w.len() as int),
        forall|k: int|
            0 <= k < runs_from(w, lo, max_n, max_total).len() ==> run_fits(
                w,
                #[trigger] runs_from(w, lo, max_n, max_total)[k],
                max_n,
                max_total,
            ),
    decreases w.len() - lo,
{
    if lo < w.len() {
        let hi = run_end(w, lo, lo + 1, max_n, max_total);
        lemma_run_end(w, lo, lo + 1, max_n, max_total);
        lemma_runs_from(w, hi, max_n, max_total);
        let rest = runs_from(w, hi, max_n, max_total);
        let all = seq![(lo, hi)] + rest;
        assert(all.drop_first() =~= rest);
        assert forall|k: int| 0 <= k < all.len() implies run_fits(
            w,
            #[trigger] all[k],
            max_n,
            max_total,
        ) by {
            if k > 0 {
                assert(all[k] == rest[k - 1]);
            }
        }
    }
}

/// In a cover each run starts where the one before it ends.
pub proof fn lemma_tiles(plan: Seq<(int, int)>, lo: int, hi: int)
    requires
        tiles(plan, lo, hi),
    ensures
        lo <= hi,
        plan.len() > 0 ==> plan[0].0 == lo && plan.last().1 == hi,
        plan.len() == 0 ==> lo == hi,
        forall|k: int| 0 <= k < plan.len() ==> lo <= (#[trigger] plan[k]).0 < plan[k].1 <= hi,
        forall|k: int| 0 < k < plan.len() ==> (#[trigger] plan[k]).0 == plan[k - 1].1,
    decreases plan.len(),
{
    if plan.len() > 0 {
        let rest = plan.drop_first();
        lemma_tiles(rest, plan[0].1, hi);
        assert forall|k: int| 0 <= k < plan.len() implies lo <= (#[trigger] plan[k]).0 < plan[k].1
            <= hi by {
            if k > 0 {
                assert(plan[k] == rest[k - 1]);
            }
        }
        assert forall|k: int| 0 < k < plan.len() implies (#[trigger] plan[k]).0
            == plan[k - 1].1 by {
            assert(plan[k] == rest[k - 1]);
            if k > 1 {
                assert(plan[k - 1] == rest[k - 2]);
            }
        }
        if rest.len() > 0 {
            assert(rest.last() == plan.last());
        }
    }
}

/// The characters a subtitle counts for: at least one.
pub open spec fn weight(s: SegmentView) -> int {
    if s.text.len() < 1 {
        1
    } else {
        s.text.len() as int
    }
}

pub open spec fn weights(list: Seq<SegmentView>) -> Seq<int> {
    list.map_values(|s: SegmentView| weight(s))
}

pub open spec fn at_least(x: int, low: int) -> int {
    if x < low {
        low
    } else {
        x
    }
}

/// The batches of the subtitles: at most `batch_size` subtitles and `batch_chars` characters each,
/// but at least one subtitle; the limits are never below one and 64.
pub open spec fn planned(list: Seq<SegmentView>, batch_size: int, batch_chars: int) -> Seq<
    (int, int),
> {
    runs_from(weights(list), 0, at_least(batch_size, 1), at_least(batch_chars, 64))
}

/// Cuts the subtitles into batches, each within both limits unless a single subtitle exceeds the
/// limit on characters.
pub fn plan_batches(
    segments: &[SubtitleSegment],
    batch_size: usize,
    batch_chars: usize,
) -> (r: Vec<(usize, usize)>)
    ensures
        ranges(r@) == planned(types::cues(segments@), batch_size as int, batch_chars as int),
{
    let ghost want = weights(types::cues(segments@));
    let mut w: Vec<u128> = Vec::new();
    for i in 0..segments.len()
        invariant
            want == weights(types::cues(segments@)),
            w@.len() == i,
            forall|j: int| 0 <= j < i ==> #[trigger] w@[j] == want[j],
    {
        let n: usize = char_count(segments[i].text.as_str());
        w.push(
            if n < 1 {
                1
            } else {
                n as u128
            },
        );
    }
    assert(numbers(w@) =~= want);
    let max_n: usize = if batch_size < 1 {
        1
    } else {
        batch_size
    };
    let max_chars: usize = if batch_chars < 64 {
        64
    } else {
        batch_chars
    };
    cut_runs(&w, max_n, max_chars as u128)
}

/// The batches cover all the subtitles in order without overlap, and each is as large as the
/// limits allow.
pub proof fn law_plan_batches(list: Seq<SegmentView>, batch_size: int, batch_chars: int)
    ensures
        tiles(planned(list, batch_size, batch_chars), 0, list.len() as int),
        forall|k: int|
            0 <= k < planned(list, batch_size, batch_chars).len() ==> run_fits(
                weights(list),
                #[trigger] planned(list, batch_size, batch_chars)[k],
                at_least(batch_size, 1),
                at_least(batch_chars, 64),
            ),
{
    lemma_runs_from(weights(list), 0, at_least(batch_size, 1), at_least(batch_chars, 64));
}

/// A run that keeps both limits, unless it is a single weight.
pub open spec fn run_allowed(w: Seq<int>, b: (int, int), max_n: int, max_total: int) -> bool {
    b.1 == b.0 + 1 || (b.1 - b.0 <= max_n && run_weight(w, b.0, b.1) <= max_total)
}

/// A run within another weighs no more.
proof fn lemma_weight_within(w: Seq<int>, lo: int, hi: int, a: int, b: int)
    requires
        0 <= lo <= a <= b <= hi <= w.len(),
        forall|i: int| 0 <= i < w.len() ==> #[trigger] w[i] >= 0,
    ensures
        run_weight(w, a, b) <= run_weight(w, lo, hi),
    decreases hi - lo,
{
    if b < hi {
        assert(w[hi - 1] >= 0);
        lemma_weight_within(w, lo, hi - 1, a, b);
    } else if a < b {
        lemma_weight_within(w, lo, hi - 1, a, b - 1);
    } else {
        if lo < hi {
            assert(w[hi - 1] >= 0);
            lemma_weight_within(w, lo, hi - 1, a - 1, b - 1);
        }
    }
}

/// The runs of another cover that starts no later reach no further, one by one, so it has at least as
/// many of them.
proof fn lemma_fewest(
    w: Seq<int>,
    mine: Seq<(int, int)>,
    other: Seq<(int, int)>,
    lo: int,
    from: int,
    max_n: int,
    max_total: int,
)
    requires
        0 <= from <= lo <= w.len(),
        max_n >= 1,
        forall|i: int| 0 <= i < w.len() ==> #[trigger] w[i] >= 0,
        tiles(mine, lo, w.len() as int),
        tiles(other, from, w.len() as int),
        forall|k: int|
            0 <= k < mine.len() ==> run_fits(w, #[trigger] mine[k], max_n, max_total),
        forall|k: int|
            0 <= k < other.len() ==> run_allowed(w, #[trigger] other[k], max_n, max_total),
    ensures
        mine.len() <= other.len(),
    decreases mine.len(),
{
    if mine.len() > 0 {
        lemma_tiles(mine, lo, w.len() as int);
        lemma_tiles(other, from, w.len() as int);
        assert(mine[0].0 == lo && lo < mine[0].1 <= w.len());
        assert(other.len() > 0);
        let hi = mine[0].1;
        let end = other[0].1;
        assert(run_fits(w, mine[0], max_n, max_total));
        assert(run_allowed(w, other[0], max_n, max_total));
        assert(end <= hi) by {
            if end > hi {
                lemma_weight_within(w, from, end, lo, hi + 1);
            }
        }
        let rest = mine.drop_first();
        let later = other.drop_first();
        assert forall|k: int| 0 <= k < rest.len() implies run_fits(
            w,
            #[trigger] rest[k],
            max_n,
            max_total,
        ) by {
            assert(rest[k] == mine[k + 1]);
        }
        assert forall|k: int| 0 <= k < later.len() implies run_allowed(
            w,
            #[trigger] later[k],
            max_n,
            max_total,
        ) by {
            assert(later[k] == other[k + 1]);
        }
        lemma_fewest(w, rest, later, hi, end, max_n, max_total);
    }
}

/// However else the subtitles are cut into batches that keep the limits, there are no fewer of them.
pub proof fn law_fewest_batches(
    list: Seq<SegmentView>,
    batch_size: int,
    batch_chars: int,
    other: Seq<(int, int)>,
)
    requires
        tiles(other, 0, list.len() as int),
        forall|k: int|
            0 <= k < other.len() ==> run_allowed(
                weights(list),
                #[trigger] other[k],
                at_least(batch_size, 1),
                at_least(batch_chars, 64),
            ),
    ensures
        planned(list, batch_size, batch_chars).len() <= other.len(),
{
    law_plan_batches(list, batch_size, batch_chars);
    lemma_fewest(
        weights(list),
        planned(list, batch_size, batch_chars),
        other,
        0,
        0,
        at_least(batch_size, 1),
        at_least(batch_chars, 64),
    );
}

/// The tokens that a chunk for a summary may have.
pub open spec fn chunk_budget(prompt_budget: int, summary_chunk_tokens: int) -> int {
    let wanted = at_least(summary_chunk_tokens, 256);
    if prompt_budget < wanted {
        prompt_budget
    } else {
        wanted
    }
}

/// The tokens of each subtitle, with one for the line break after it.
pub open spec fn token_weights(counts: Seq<usize>) -> Seq<int> {
    counts.map_values(|c: usize| c + 1)
}

/// The chunks that the subtitles are summarised in, given how many tokens each has.
pub open spec fn chunk_plan(counts: Seq<usize>, budget: int) -> Seq<(int, int)> {
    runs_from(token_weights(counts), 0, usize::MAX as int, budget)
}

/// Cuts the subtitles into chunks for the summary, given how many tokens each has.
pub fn plan_chunks(counts: &Vec<usize>, budget: usize) -> (r: Vec<(usize, usize)>)
    ensures
        ranges(r@) == chunk_plan(counts@, budget as int),
{
    let ghost want = token_weights(counts@);
    let mut w: Vec<u128> = Vec::new();
    for i in 0..counts.len()
        invariant
            want == token_weights(counts@),
            w@.len() == i,
            forall|j: int| 0 <= j < i ==> #[trigger] w@[j] == want[j],
    {
        w.push(counts[i] as u128 + 1);
    }
    assert(numbers(w@) =~= want);
    cut_runs(&w, usize::MAX, budget as u128)
}

/// However else the subtitles are cut into chunks that keep the limit, there are no fewer of them.
pub proof fn law_fewest_chunks(counts: Seq<usize>, budget: int, other: Seq<(int, int)>)
    requires
        counts.len() <= usize::MAX,
        tiles(other, 0, counts.len() as int),
        forall|k: int|
            0 <= k < other.len() ==> run_allowed(
                token_weights(counts),
                #[trigger] other[k],
                counts.len() as int,
                budget,
            ),
    ensures
        chunk_plan(counts, budget).len() <= other.len(),
{
    let w = token_weights(counts);
    let max_n = usize::MAX as int;
    lemma_runs_from(w, 0, max_n, budget);
    lemma_fewest(w, chunk_plan(counts, budget), other, 0, 0, max_n, budget);
}

} // verus!
