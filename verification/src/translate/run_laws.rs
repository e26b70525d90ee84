//! What a run leaves of the texts.

use vstd::prelude::*;

use crate::translate::ask::{EventView, Reply};
use crate::translate::run::{Job, RunView, StageView};
use crate::translate::{ask, batch, batches, context, merge, run};
use crate::types::{ItemView, SegmentView, TranslateStats};

verus! {

/// Adding the translations of the next subtitles leaves none with text without.
proof fn lemma_texts_grow(
    segments: Seq<SegmentView>,
    done: Seq<SegmentView>,
    more: Seq<SegmentView>,
    hi: int,
)
    requires
        done.len() <= hi <= segments.len(),
        merge::texts_stay(segments, done),
        merge::texts_stay(segments.subrange(done.len() as int, hi), more),
    ensures
        merge::texts_stay(segments, done + more),
{
    let all = done + more;
    let next = segments.subrange(done.len() as int, hi);
    assert forall|i: int|
        0 <= i < all.len() && crate::text::spaces::trim(
            segments[i].text,
        ).len() > 0 implies crate::text::spaces::trim(#[trigger] all[i].text).len() > 0 by {
        if i < done.len() {
            assert(all[i] == done[i]);
        } else {
            let k = i - done.len();
            assert(all[i] == more[k]);
            assert(next[k] == segments[i]);
        }
    }
}

proof fn lemma_lost_text(r: RunView, job: Job)
    requires
        run::between(r, job),
        r.batch < job.plan.len(),
        merge::texts_stay(job.segments, r.translated),
    ensures
        merge::texts_stay(job.segments, run::batch_lost(r, job).translated),
{
    run::lemma_next_begin(r, job);
    let cues = run::batch_cues(r, job);
    assert(merge::texts_stay(cues, cues));
    lemma_texts_grow(job.segments, r.translated, cues, job.plan[r.batch].1);
}

proof fn lemma_begun_text(r: RunView, job: Job)
    requires
        run::between(r, job),
        merge::texts_stay(job.segments, r.translated),
    ensures
        merge::texts_stay(job.segments, run::begin_batch(r, job).translated),
    decreases job.plan.len() - r.batch,
{
    if r.batch < job.plan.len() {
        let (lo, hi) = job.plan[r.batch];
        let begun = RunView {
            stats: TranslateStats { batches: ask::plus(r.stats.batches, 1), ..r.stats },
            ..r
        };
        if batch::batch_start(lo as usize, hi as usize, run::setting(r, job)).stage is Lost {
            run::lemma_batch_lost(begun, job);
            lemma_lost_text(begun, job);
            lemma_begun_text(run::batch_lost(begun, job), job);
        }
    }
}

/// What holds when the texts of a batch are there: they are the last ones.
spec fn batch_ended(r: RunView, job: Job) -> bool {
    &&& batches::tiles(job.plan, 0, job.segments.len() as int)
    &&& job.segments.len() <= usize::MAX
    &&& 0 <= r.batch < job.plan.len()
    &&& r.translated.len() == job.plan[r.batch].1
    &&& merge::same_timeline(r.translated, job.segments.take(r.translated.len() as int))
}

proof fn lemma_next_text(r: RunView, job: Job)
    requires
        batch_ended(r, job),
        merge::texts_stay(job.segments, r.translated),
    ensures
        merge::texts_stay(job.segments, run::next_batch(r, job).translated),
{
    run::lemma_next_begin(r, job);
    lemma_begun_text(RunView { batch: r.batch + 1, stage: StageView::Done, ..r }, job);
}

/// The state with some texts in the source's script counted.
spec fn with_residual(r: RunView, left: nat) -> RunView {
    RunView {
        stats: TranslateStats { residual: ask::plus(r.stats.residual, left as int), ..r.stats },
        ..r
    }
}

proof fn lemma_reviewed_text(r: RunView, picks: Seq<int>, second: bool, job: Job)
    requires
        batch_ended(r, job),
        merge::texts_stay(job.segments, r.translated),
    ensures
        merge::texts_stay(job.segments, run::after_review(r, picks, second, job).translated),
{
    let script = job.cfg.residual_script@;
    let left = merge::still_residual(r.translated, picks, script);
    lemma_next_text(r, job);
    lemma_next_text(with_residual(r, left.len()), job);
    lemma_next_text(
        with_residual(r, merge::still_residual(r.translated, left, script).len()),
        job,
    );
}

proof fn lemma_found_text(r: RunView, items: Seq<ItemView>, job: Job)
    requires
        run::between(r, job),
        r.batch < job.plan.len(),
        merge::texts_stay(job.segments, r.translated),
    ensures
        merge::texts_stay(job.segments, run::batch_found(r, items, job).translated),
{
    let (lo, hi) = job.plan[r.batch];
    let cues = run::batch_cues(r, job);
    run::lemma_next_begin(r, job);
    merge::law_merge_leaves_text(cues, items);
    merge::law_merge_keeps_the_timeline(cues, items);
    lemma_texts_grow(job.segments, r.translated, merge::merged(cues, items), hi);
    run::lemma_timeline_grows(
        r.translated,
        merge::merged(cues, items),
        job.segments,
        lo,
        hi,
    );
    let u = RunView {
        stats: merge::merge_stats(r.stats, cues, items, cues.len() as int),
        translated: r.translated + merge::merged(cues, items),
        stage: StageView::Done,
        ..r
    };
    lemma_reviewed_text(u, run::span_of(lo, hi), false, job);
    lemma_next_text(u, job);
}

/// A run starts with no subtitle with text left without.
pub proof fn law_start_leaves_text(counts: Seq<usize>, job: Job)
    requires
        batches::tiles(job.plan, 0, job.segments.len() as int),
        job.segments.len() <= usize::MAX,
    ensures
        merge::texts_stay(job.segments, run::run_start(counts, job).translated),
{
    batches::lemma_tiles(job.plan, 0, job.segments.len() as int);
    if job.segments.len() > 0 {
        let t = context::context_start(job.segments, counts, job.cfg, job.templates);
        let stats = TranslateStats {
            segments: job.segments.len() as usize,
            summary_chunks: batches::chunk_plan(
                counts,
                context::summary_budget(job.cfg),
            ).len() as usize,
            ..run::no_stats()
        };
        lemma_begun_text(
            RunView {
                stats,
                known: t.known,
                translated: Seq::empty(),
                batch: 0,
                stage: StageView::Done,
            },
            job,
        );
    }
}

/// Whatever the model answers, a subtitle with text never gets a translation without: if that holds
/// at one point of a run, it holds after every answer, and at the end of all the subtitles.
pub proof fn law_run_leaves_text(r: RunView, event: EventView, job: Job)
    requires
        run::run_valid(r, job),
        merge::texts_stay(job.segments, r.translated),
    ensures
        merge::texts_stay(job.segments, run::run_step(r, event, job).translated),
        run::run_step(r, event, job).stage is Done ==> run::run_step(r, event, job).translated.len()
            == job.segments.len(),
{
    run::law_run_keeps_the_timeline(r, event, job);
    batches::lemma_tiles(job.plan, 0, job.segments.len() as int);
    match r.stage {
        StageView::Context(t) => {
            let (u, stats) = context::context_step(t, r.stats, event, job.cfg, job.templates);
            lemma_begun_text(
                RunView { stats, known: u.known, stage: StageView::Done, ..r },
                job,
            );
        },
        StageView::Batch(t) => {
            let (u, stats) = batch::batch_step(t, r.stats, event, run::setting(r, job));
            let rest = RunView { stats, stage: StageView::Done, ..r };
            run::lemma_batch_lost(rest, job);
            lemma_lost_text(rest, job);
            lemma_begun_text(run::batch_lost(rest, job), job);
            lemma_found_text(rest, u.items, job);
        },
        StageView::Review { second, picks, prompt, attempt } => {
            let rest = RunView { stage: StageView::Done, ..r };
            lemma_reviewed_text(rest, picks, second, job);
            if let EventView::Items(Reply::Parsed(fixes)) = event {
                let (translated, n) = merge::fixed(job.segments, r.translated, picks, fixes);
                merge::law_fixes_leave_text(job.segments, r.translated, picks, fixes);
                merge::law_fixes_keep_the_timeline(job.segments, r.translated, picks, fixes);
                let u = RunView {
                    stats: TranslateStats {
                        reviewed: ask::plus(r.stats.reviewed, picks.len() as int),
                        review_fixed: ask::plus(r.stats.review_fixed, n as int),
                        ..r.stats
                    },
                    translated,
                    ..rest
                };
                run::lemma_same_timeline(translated, r.translated, job.segments);
                lemma_reviewed_text(u, picks, second, job);
            }
        },
        StageView::Done => {},
    }
}

} // verus!
