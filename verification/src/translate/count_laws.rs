//! What the counters of a run count.

use vstd::prelude::*;

use crate::text::spaces;
use crate::translate::ask::{EventView, Reply};
use crate::translate::ask_laws;
use crate::translate::batch::{BatchSetting, BatchTaskView};
use crate::translate::context::ContextTaskView;
use crate::translate::prompts::TranslateConfig;
use crate::translate::run::{Job, RunView};
use crate::translate::{ask, batch, context, copies, merge, run};
use crate::types::{ItemView, SegmentView, TranslateStats};

verus! {

/// One if it is so.
pub open spec fn one_if(b: bool) -> int {
    if b {
        1
    } else {
        0
    }
}

/// A subtitle counts as matched by position if the reply has nothing under its number and as many
/// texts as there are subtitles; as untranslated if there is no text for it, or a blank one; and as
/// copied if the text that it ends with is a copy of its own.
pub proof fn law_merging_is_counted(
    stats: TranslateStats,
    batch: Seq<SegmentView>,
    items: Seq<ItemView>,
    k: int,
)
    requires
        0 <= k < batch.len(),
        merge::merge_stats(stats, batch, items, k).positional < usize::MAX,
        merge::merge_stats(stats, batch, items, k).untranslated < usize::MAX,
        merge::merge_stats(stats, batch, items, k).copied < usize::MAX,
    ensures
        ({
            let a = merge::merge_stats(stats, batch, items, k);
            let b = merge::merge_stats(stats, batch, items, k + 1);
            let numbered = exists|j: int|
                0 <= j < items.len() && (#[trigger] items[j]).i == batch[k].index;
            let text = if numbered {
                copies::item_for(items, batch[k].index).unwrap().t
            } else if items.len() == batch.len() {
                items[k].t
            } else {
                Seq::empty()
            };
            &&& merge::merge_stats(stats, batch, items, 0) == stats
            &&& b.positional == a.positional + one_if(!numbered && items.len() == batch.len())
            &&& b.untranslated == a.untranslated + one_if(spaces::all_white(text))
            &&& b.copied == a.copied + one_if(
                copies::copied(batch[k].text, merge::merged(batch, items)[k].text),
            )
            &&& b == (TranslateStats {
                positional: b.positional,
                untranslated: b.untranslated,
                copied: b.copied,
                ..a
            })
        }),
{
    crate::translate::copy_laws::law_the_first_item_counts(items, batch[k].index);
    if let Some(it) = merge::chosen_item(batch, items, k) {
        spaces::lemma_blank(it.t);
    }
}

/// A batch that is lost keeps its subtitles as they are; they count as untranslated, and the batch as
/// failed.
pub proof fn law_lost_batches_are_counted(r: RunView, job: Job)
    requires
        0 <= r.batch < job.plan.len(),
        0 <= job.plan[r.batch].0 <= job.plan[r.batch].1 <= job.segments.len(),
        r.stats.failed_batches < usize::MAX,
        r.stats.untranslated + job.segments.len() <= usize::MAX,
    ensures
        ({
            let u = run::batch_lost(r, job);
            let (lo, hi) = job.plan[r.batch];
            &&& u.translated == r.translated + job.segments.subrange(lo, hi)
            &&& u.batch == r.batch + 1
            &&& u.known == r.known
            &&& u.stats == (TranslateStats {
                failed_batches: (r.stats.failed_batches + 1) as usize,
                untranslated: (r.stats.untranslated + (hi - lo)) as usize,
                ..r.stats
            })
        }),
{
}

/// Every reply that will not do is counted as a retry, and nothing else is.
pub proof fn law_replies_that_will_not_do_are_counted(
    t: BatchTaskView,
    stats: TranslateStats,
    r: Reply<Seq<ItemView>>,
    w: BatchSetting,
)
    requires
        t.stage is Reply,
        stats.retries < usize::MAX,
    ensures
        ({
            let after = batch::batch_step(t, stats, EventView::Items(r), w).1;
            after == (TranslateStats {
                retries: (stats.retries + one_if(
                    !ask_laws::will_do(batch::piece_cues(w, t.pieces.last()), r),
                )) as usize,
                ..stats
            })
        }),
{
    if r is Parsed {
        ask_laws::lemma_no_copies(batch::piece_cues(w, t.pieces.last()), r->Parsed_0);
    }
}

/// Every attempt at a summary that comes to nothing is counted as a retry, and nothing else is.
pub proof fn law_empty_summaries_are_counted(
    t: ContextTaskView,
    stats: TranslateStats,
    r: Reply<crate::types::ContextView>,
    cfg: TranslateConfig,
    templates: Map<Seq<char>, Seq<char>>,
)
    requires
        t.stage is Reply,
        stats.retries < usize::MAX,
    ensures
        ({
            let after = context::context_step(t, stats, EventView::Context(r), cfg, templates).1;
            let found = r is Parsed && (!spaces::all_white(r->Parsed_0.summary)
                || r->Parsed_0.glossary.len() > 0);
            after == (TranslateStats {
                retries: (stats.retries + one_if(!found)) as usize,
                ..stats
            })
        }),
{
    if r is Parsed {
        spaces::lemma_blank(r->Parsed_0.summary);
    }
}

/// A run counts its subtitles once, and nothing else before the first answer but the chunks of the
/// film and the batches that could not be begun.
pub proof fn law_a_run_counts_its_subtitles(counts: Seq<usize>, job: Job)
    requires
        job.segments.len() <= usize::MAX,
        0 < job.segments.len(),
    ensures
        ({
            let s = run::run_start(counts, job).stats;
            &&& s.segments == job.segments.len()
            &&& s.retries == 0 && s.positional == 0 && s.copied == 0 && s.splits == 0
            &&& s.reviewed == 0 && s.review_fixed == 0 && s.residual == 0
        }),
{
    let t = context::context_start(job.segments, counts, job.cfg, job.templates);
    let idle = RunView {
        stats: run::no_stats(),
        known: context::nothing_known(),
        translated: Seq::empty(),
        batch: 0,
        stage: run::StageView::Done,
    };
    let stats = TranslateStats {
        segments: job.segments.len() as usize,
        summary_chunks: crate::translate::batches::chunk_plan(
            counts,
            context::summary_budget(job.cfg),
        ).len() as usize,
        ..run::no_stats()
    };
    lemma_begun_counts(
        RunView { stats, known: t.known, stage: run::StageView::Done, ..idle },
        job,
    );
}

/// Beginning batches counts batches, lost ones and their subtitles only.
proof fn lemma_begun_counts(r: RunView, job: Job)
    requires
        0 <= r.batch,
    ensures
        ({
            let s = run::begin_batch(r, job).stats;
            s == (TranslateStats {
                batches: s.batches,
                failed_batches: s.failed_batches,
                untranslated: s.untranslated,
                ..r.stats
            })
        }),
    decreases job.plan.len() - r.batch,
{
    if r.batch < job.plan.len() {
        let begun = RunView {
            stats: TranslateStats { batches: ask::plus(r.stats.batches, 1), ..r.stats },
            ..r
        };
        lemma_begun_counts(run::batch_lost(begun, job), job);
    }
}

} // verus!
