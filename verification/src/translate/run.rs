//! Translating a whole film.
//!
//! The translator finds out what the film is about, translates it batch by batch, and has each batch
//! reviewed. At every point it says what is to be done, and takes the answer; numbers and times of
//! the subtitles never pass through the model.

use vstd::prelude::*;

use crate::llm::chat;
use crate::translate::ask::{ActionView, EventView, Reply, RequestView, REVIEW_SYSTEM};
use crate::translate::batch::{BatchSetting, BatchStageView, BatchTaskView};
use crate::translate::context::ContextTaskView;
use crate::translate::prompts::TranslateConfig;
use crate::translate::{ask, batch, batches, context, merge, prompts};
use crate::types::{ContextView, ItemView, SegmentView, TranslateStats};

verus! {

/// How often the model is asked for a review.
pub const REVIEW_ATTEMPTS: usize = 2;

/// Reviews draw from other seeds than translations.
pub const REVIEW_SEED_OFFSET: usize = 100;

/// What a run works on: how, with which templates, and in which batches.
pub struct Job {
    pub cfg: TranslateConfig,
    pub templates: Map<Seq<char>, Seq<char>>,
    pub segments: Seq<SegmentView>,
    pub plan: Seq<(int, int)>,
}

/// The job of translating these subtitles.
pub open spec fn job_of(
    cfg: TranslateConfig,
    templates: Map<Seq<char>, Seq<char>>,
    segments: Seq<SegmentView>,
) -> Job {
    Job {
        cfg,
        templates,
        segments,
        plan: batches::planned(segments, cfg.batch_size as int, cfg.batch_chars as int),
    }
}

/// What a run is at.
pub enum StageView {
    /// Finding out what the film is about.
    Context(ContextTaskView),
    /// Translating a batch.
    Batch(BatchTaskView),
    /// Having the translations at the positions `picks` reviewed, for the second time if `second`.
    Review { second: bool, picks: Seq<int>, prompt: Seq<char>, attempt: int },
    /// The film is translated.
    Done,
}

/// The state of a run.
#[verifier::ext_equal]
pub struct RunView {
    pub stats: TranslateStats,
    pub known: ContextView,
    pub translated: Seq<SegmentView>,
    /// The batch that is being translated.
    pub batch: int,
    pub stage: StageView,
}

/// The last of the translated subtitles, as context for the next batch.
pub open spec fn recent(translated: Seq<SegmentView>, context_size: int) -> Seq<SegmentView> {
    translated.skip(
        if translated.len() < context_size {
            0
        } else {
            translated.len() - context_size
        },
    )
}

/// What the next batch is translated with.
pub open spec fn setting(r: RunView, job: Job) -> BatchSetting {
    BatchSetting {
        cfg: job.cfg,
        templates: job.templates,
        known: r.known,
        context: recent(r.translated, job.cfg.context_size as int),
        segments: job.segments,
    }
}

/// The subtitles of the present batch.
pub open spec fn batch_cues(r: RunView, job: Job) -> Seq<SegmentView> {
    job.segments.subrange(job.plan[r.batch].0, job.plan[r.batch].1)
}

/// The present batch cannot be translated: its subtitles stay as they are.
pub open spec fn batch_lost(r: RunView, job: Job) -> RunView {
    let cues = batch_cues(r, job);
    RunView {
        stats: TranslateStats {
            failed_batches: ask::plus(r.stats.failed_batches, 1),
            untranslated: ask::plus(r.stats.untranslated, cues.len() as int),
            ..r.stats
        },
        translated: r.translated + cues,
        batch: r.batch + 1,
        stage: StageView::Done,
        ..r
    }
}

/// Begins the next batch that can be asked for; without one the film is translated.
pub open spec fn begin_batch(r: RunView, job: Job) -> RunView
    decreases job.plan.len() - r.batch,
{
    if r.batch >= job.plan.len() {
        RunView { stage: StageView::Done, ..r }
    } else {
        let begun = RunView {
            stats: TranslateStats { batches: ask::plus(r.stats.batches, 1), ..r.stats },
            ..r
        };
        let t = batch::batch_start(
            job.plan[r.batch].0 as usize,
            job.plan[r.batch].1 as usize,
            setting(r, job),
        );
        if t.stage is Lost {
            begin_batch(batch_lost(begun, job), job)
        } else {
            RunView { stage: StageView::Batch(t), ..begun }
        }
    }
}

/// The present batch is over.
pub open spec fn next_batch(r: RunView, job: Job) -> RunView {
    begin_batch(RunView { batch: r.batch + 1, stage: StageView::Done, ..r }, job)
}

/// The second review is over: what it left is counted.
pub open spec fn after_second_review(r: RunView, picks: Seq<int>, job: Job) -> RunView {
    let left = merge::still_residual(r.translated, picks, job.cfg.residual_script@).len();
    next_batch(
        RunView {
            stats: TranslateStats {
                residual: ask::plus(r.stats.residual, left as int),
                ..r.stats
            },
            ..r
        },
        job,
    )
}

/// The prompt for a review.
pub open spec fn review_text(r: RunView, picks: Seq<int>, second: bool, job: Job) -> Option<
    Seq<char>,
> {
    prompts::review_prompt(
        job.cfg,
        job.templates,
        r.known,
        prompts::pair_list(job.segments, r.translated, picks),
        second,
    )
}

/// Begins the second review, of the translations with text in the source's script.
pub open spec fn begin_second_review(r: RunView, picks: Seq<int>, job: Job) -> RunView {
    match review_text(r, picks, true, job) {
        Some(prompt) => RunView {
            stage: StageView::Review { second: true, picks, prompt, attempt: 1 },
            ..r
        },
        None => after_second_review(r, picks, job),
    }
}

/// The first review is over: a second one follows if text in the source's script is left.
pub open spec fn after_first_review(r: RunView, picks: Seq<int>, job: Job) -> RunView {
    let left = merge::still_residual(r.translated, picks, job.cfg.residual_script@);
    if job.cfg.residual_script@ == "none"@ || left.len() == 0 {
        next_batch(r, job)
    } else {
        begin_second_review(r, left, job)
    }
}

/// Begins the review of a batch.
pub open spec fn begin_review(r: RunView, picks: Seq<int>, job: Job) -> RunView {
    match review_text(r, picks, false, job) {
        Some(prompt) => RunView {
            stage: StageView::Review { second: false, picks, prompt, attempt: 1 },
            ..r
        },
        None => after_first_review(r, picks, job),
    }
}

pub open spec fn after_review(r: RunView, picks: Seq<int>, second: bool, job: Job) -> RunView {
    if second {
        after_second_review(r, picks, job)
    } else {
        after_first_review(r, picks, job)
    }
}

/// The positions from `lo` up to `hi`.
pub open spec fn span_of(lo: int, hi: int) -> Seq<int> {
    Seq::new((hi - lo) as nat, |k: int| lo + k)
}

/// The present batch is translated: its subtitles get their texts, and are reviewed if they are to
/// be.
pub open spec fn batch_found(r: RunView, items: Seq<ItemView>, job: Job) -> RunView {
    let cues = batch_cues(r, job);
    let (lo, hi) = job.plan[r.batch];
    let u = RunView {
        stats: merge::merge_stats(r.stats, cues, items, cues.len() as int),
        translated: r.translated + merge::merged(cues, items),
        stage: StageView::Done,
        ..r
    };
    if job.cfg.review_enabled {
        begin_review(u, span_of(lo, hi), job)
    } else {
        next_batch(u, job)
    }
}

/// The state after an answer to a review.
pub open spec fn review_step(
    r: RunView,
    second: bool,
    picks: Seq<int>,
    prompt: Seq<char>,
    attempt: int,
    reply: Reply<Seq<ItemView>>,
    job: Job,
) -> RunView {
    let rest = RunView { stage: StageView::Done, ..r };
    match reply {
        Reply::Parsed(fixes) => {
            let (translated, n) = merge::fixed(job.segments, r.translated, picks, fixes);
            after_review(
                RunView {
                    stats: TranslateStats {
                        reviewed: ask::plus(r.stats.reviewed, picks.len() as int),
                        review_fixed: ask::plus(r.stats.review_fixed, n as int),
                        ..r.stats
                    },
                    translated,
                    ..rest
                },
                picks,
                second,
                job,
            )
        },
        _ => if attempt < REVIEW_ATTEMPTS {
            RunView {
                stage: StageView::Review { second, picks, prompt, attempt: attempt + 1 },
                ..r
            }
        } else {
            after_review(rest, picks, second, job)
        },
    }
}

/// What is known of the film; on to the batches.
pub open spec fn context_found(
    r: RunView,
    t: ContextTaskView,
    stats: TranslateStats,
    job: Job,
) -> RunView {
    if t.stage is Done {
        begin_batch(RunView { stats, known: t.known, stage: StageView::Done, ..r }, job)
    } else {
        RunView { stats, stage: StageView::Context(t), ..r }
    }
}

pub open spec fn batch_went_on(
    r: RunView,
    t: BatchTaskView,
    stats: TranslateStats,
    job: Job,
) -> RunView {
    let u = RunView { stats, stage: StageView::Done, ..r };
    match t.stage {
        BatchStageView::Done => batch_found(u, t.items, job),
        BatchStageView::Lost => begin_batch(batch_lost(u, job), job),
        _ => RunView { stage: StageView::Batch(t), ..u },
    }
}

/// The state after an event. One that is no answer to what was asked changes nothing.
pub open spec fn run_step(r: RunView, event: EventView, job: Job) -> RunView {
    match r.stage {
        StageView::Context(t) => {
            let (u, stats) = context::context_step(t, r.stats, event, job.cfg, job.templates);
            context_found(r, u, stats, job)
        },
        StageView::Batch(t) => {
            let (u, stats) = batch::batch_step(t, r.stats, event, setting(r, job));
            batch_went_on(r, u, stats, job)
        },
        StageView::Review { second, picks, prompt, attempt } => match event {
            EventView::Items(reply) => review_step(r, second, picks, prompt, attempt, reply, job),
            _ => r,
        },
        StageView::Done => r,
    }
}

pub open spec fn no_stats() -> TranslateStats {
    TranslateStats {
        segments: 0,
        batches: 0,
        retries: 0,
        failed_batches: 0,
        positional: 0,
        copied: 0,
        untranslated: 0,
        reviewed: 0,
        review_fixed: 0,
        residual: 0,
        summary_chunks: 0,
        splits: 0,
    }
}

/// The start of a run, given how many tokens each subtitle has.
pub open spec fn run_start(counts: Seq<usize>, job: Job) -> RunView {
    let idle = RunView {
        stats: no_stats(),
        known: context::nothing_known(),
        translated: Seq::empty(),
        batch: 0,
        stage: StageView::Done,
    };
    if job.segments.len() == 0 {
        idle
    } else {
        let t = context::context_start(job.segments, counts, job.cfg, job.templates);
        let stats = TranslateStats {
            segments: job.segments.len() as usize,
            summary_chunks: batches::chunk_plan(
                counts,
                context::summary_budget(job.cfg),
            ).len() as usize,
            ..no_stats()
        };
        context_found(idle, t, stats, job)
    }
}

/// The request of a review.
pub open spec fn review_request(
    picks: Seq<int>,
    prompt: Seq<char>,
    attempt: int,
    cfg: TranslateConfig,
) -> RequestView {
    RequestView {
        system: REVIEW_SYSTEM@,
        prompt,
        seed: chat::drawn_seed(cfg.seed, attempt + REVIEW_SEED_OFFSET) as u32,
        max_new: ask::items_room(
            cfg.translate_tokens_per_item as int,
            picks.len() as int,
        ) as u32,
        array: true,
    }
}

/// What is to be done.
pub open spec fn run_action(r: RunView, cfg: TranslateConfig) -> ActionView {
    match r.stage {
        StageView::Context(t) => context::context_action(t, cfg),
        StageView::Batch(t) => batch::batch_action(t, cfg),
        StageView::Review { second, picks, prompt, attempt } => ActionView::Ask(
            review_request(picks, prompt, attempt, cfg),
        ),
        StageView::Done => ActionView::Finish,
    }
}

/// The subtitles before this one are translated.
pub open spec fn batch_begin(r: RunView, job: Job) -> int {
    if r.batch < job.plan.len() {
        job.plan[r.batch].0
    } else {
        job.segments.len() as int
    }
}

/// What holds at every point of a run: the translated subtitles are the first ones of the film, at
/// their times and under their numbers, up to the present batch; and what is being waited for makes
/// sense.
pub open spec fn run_valid(r: RunView, job: Job) -> bool {
    &&& batches::tiles(job.plan, 0, job.segments.len() as int)
    &&& job.segments.len() <= usize::MAX
    &&& 0 <= r.batch <= job.plan.len()
    &&& r.translated.len() <= job.segments.len()
    &&& merge::same_timeline(r.translated, job.segments.take(r.translated.len() as int))
    &&& match r.stage {
        StageView::Context(t) => {
            &&& r.batch == 0
            &&& r.translated.len() == 0
            &&& context::context_valid(t)
            &&& !(t.stage is Done)
        },
        StageView::Batch(t) => {
            &&& r.batch < job.plan.len()
            &&& r.translated.len() == job.plan[r.batch].0
            &&& batch::batch_valid(t, job.segments.len() as int)
            &&& t.stage is Tokens || t.stage is Reply
        },
        StageView::Review { second, picks, prompt, attempt } => {
            &&& r.batch < job.plan.len()
            &&& r.translated.len() == job.plan[r.batch].1
            &&& 1 <= attempt <= REVIEW_ATTEMPTS
            &&& forall|k: int|
                0 <= k < picks.len() ==> 0 <= #[trigger] picks[k] < r.translated.len()
        },
        StageView::Done => r.translated.len() == job.segments.len(),
    }
}

/// A state between two stages: everything before the present batch is translated.
pub open spec fn between(r: RunView, job: Job) -> bool {
    &&& batches::tiles(job.plan, 0, job.segments.len() as int)
    &&& job.segments.len() <= usize::MAX
    &&& 0 <= r.batch <= job.plan.len()
    &&& r.translated.len() == batch_begin(r, job)
    &&& merge::same_timeline(r.translated, job.segments.take(r.translated.len() as int))
}

proof fn lemma_begin_batch(r: RunView, job: Job)
    requires
        between(r, job),
    ensures
        run_valid(begin_batch(r, job), job),
    decreases job.plan.len() - r.batch,
{
    batches::lemma_tiles(job.plan, 0, job.segments.len() as int);
    if r.batch < job.plan.len() {
        let (lo, hi) = job.plan[r.batch];
        let begun = RunView {
            stats: TranslateStats { batches: ask::plus(r.stats.batches, 1), ..r.stats },
            ..r
        };
        let t = batch::batch_start(lo as usize, hi as usize, setting(r, job));
        if t.stage is Lost {
            lemma_batch_lost(begun, job);
            lemma_begin_batch(batch_lost(begun, job), job);
        }
    }
}

pub proof fn lemma_next_begin(r: RunView, job: Job)
    requires
        batches::tiles(job.plan, 0, job.segments.len() as int),
        0 <= r.batch < job.plan.len(),
    ensures
        batch_begin(RunView { batch: r.batch + 1, ..r }, job) == job.plan[r.batch].1,
        0 <= job.plan[r.batch].0 < job.plan[r.batch].1 <= job.segments.len(),
{
    batches::lemma_tiles(job.plan, 0, job.segments.len() as int);
    assert(job.plan[r.batch].1 <= job.segments.len());
    if r.batch + 1 < job.plan.len() {
        assert(job.plan[r.batch + 1].0 == job.plan[r.batch].1);
    } else {
        assert(job.plan.last() == job.plan[r.batch]);
    }
}

/// Adding subtitles with the times of the film keeps the times of the film.
pub proof fn lemma_timeline_grows(
    done: Seq<SegmentView>,
    more: Seq<SegmentView>,
    segments: Seq<SegmentView>,
    lo: int,
    hi: int,
)
    requires
        0 <= lo <= hi <= segments.len(),
        done.len() == lo,
        merge::same_timeline(done, segments.take(lo)),
        merge::same_timeline(more, segments.subrange(lo, hi)),
    ensures
        (done + more).len() == hi,
        merge::same_timeline(done + more, segments.take(hi)),
{
    let all = done + more;
    assert forall|i: int| 0 <= i < all.len() implies {
        &&& #[trigger] all[i].index == segments.take(hi)[i].index
        &&& all[i].start_ms == segments.take(hi)[i].start_ms
        &&& all[i].end_ms == segments.take(hi)[i].end_ms
    } by {
        if i < lo {
            assert(all[i] == done[i]);
            assert(done[i].index == segments.take(lo)[i].index);
        } else {
            assert(all[i] == more[i - lo]);
            assert(more[i - lo].index == segments.subrange(lo, hi)[i - lo].index);
        }
    }
}

pub proof fn lemma_batch_lost(r: RunView, job: Job)
    requires
        between(r, job),
        r.batch < job.plan.len(),
    ensures
        between(batch_lost(r, job), job),
{
    let (lo, hi) = job.plan[r.batch];
    lemma_next_begin(r, job);
    lemma_timeline_grows(r.translated, batch_cues(r, job), job.segments, lo, hi);
}

proof fn lemma_after_review(r: RunView, picks: Seq<int>, second: bool, job: Job)
    requires
        batches::tiles(job.plan, 0, job.segments.len() as int),
        job.segments.len() <= usize::MAX,
        0 <= r.batch < job.plan.len(),
        r.translated.len() == job.plan[r.batch].1,
        merge::same_timeline(r.translated, job.segments.take(r.translated.len() as int)),
        forall|k: int| 0 <= k < picks.len() ==> 0 <= #[trigger] picks[k] < r.translated.len(),
    ensures
        run_valid(after_review(r, picks, second, job), job),
{
    lemma_next_begin(r, job);
    let next = RunView { batch: r.batch + 1, stage: StageView::Done, ..r };
    lemma_begin_batch(next, job);
    let script = job.cfg.residual_script@;
    let left = merge::still_residual(r.translated, picks, script);
    merge::lemma_still_residual(r.translated, picks, script);
    if second {
        let u = RunView {
            stats: TranslateStats {
                residual: ask::plus(r.stats.residual, left.len() as int),
                ..r.stats
            },
            ..r
        };
        lemma_begin_batch(RunView { batch: u.batch + 1, stage: StageView::Done, ..u }, job);
    } else {
        let n = merge::still_residual(r.translated, left, script).len();
        let u = RunView {
            stats: TranslateStats {
                residual: ask::plus(r.stats.residual, n as int),
                ..r.stats
            },
            ..r
        };
        lemma_begin_batch(RunView { batch: u.batch + 1, stage: StageView::Done, ..u }, job);
    }
}

proof fn lemma_batch_found(r: RunView, items: Seq<ItemView>, job: Job)
    requires
        between(r, job),
        r.batch < job.plan.len(),
    ensures
        run_valid(batch_found(r, items, job), job),
{
    let (lo, hi) = job.plan[r.batch];
    let cues = batch_cues(r, job);
    lemma_next_begin(r, job);
    merge::law_merge_keeps_the_timeline(cues, items);
    lemma_timeline_grows(r.translated, merge::merged(cues, items), job.segments, lo, hi);
    let u = RunView {
        stats: merge::merge_stats(r.stats, cues, items, cues.len() as int),
        translated: r.translated + merge::merged(cues, items),
        stage: StageView::Done,
        ..r
    };
    lemma_after_review(u, span_of(lo, hi), false, job);
    lemma_begin_batch(RunView { batch: u.batch + 1, stage: StageView::Done, ..u }, job);
}

/// What has the times of the first subtitles of the film keeps them when only texts change.
pub proof fn lemma_same_timeline(
    after: Seq<SegmentView>,
    before: Seq<SegmentView>,
    segments: Seq<SegmentView>,
)
    requires
        before.len() <= segments.len(),
        merge::same_timeline(after, before),
        merge::same_timeline(before, segments.take(before.len() as int)),
    ensures
        merge::same_timeline(after, segments.take(after.len() as int)),
{
    assert forall|i: int| 0 <= i < after.len() implies {
        let s = segments.take(after.len() as int)[i];
        &&& #[trigger] after[i].index == s.index
        &&& after[i].start_ms == s.start_ms
        &&& after[i].end_ms == s.end_ms
    } by {
        assert(after[i].index == before[i].index);
        assert(before[i].index == segments.take(before.len() as int)[i].index);
    }
}

/// A run starts in order.
pub proof fn lemma_run_start(counts: Seq<usize>, job: Job)
    requires
        batches::tiles(job.plan, 0, job.segments.len() as int),
        job.segments.len() <= usize::MAX,
    ensures
        run_valid(run_start(counts, job), job),
{
    batches::lemma_tiles(job.plan, 0, job.segments.len() as int);
    let idle = RunView {
        stats: no_stats(),
        known: context::nothing_known(),
        translated: Seq::empty(),
        batch: 0,
        stage: StageView::Done,
    };
    if job.segments.len() > 0 {
        let t = context::context_start(job.segments, counts, job.cfg, job.templates);
        context::lemma_context_start(job.segments, counts, job.cfg, job.templates);
        let stats = TranslateStats {
            segments: job.segments.len() as usize,
            summary_chunks: batches::chunk_plan(
                counts,
                context::summary_budget(job.cfg),
            ).len() as usize,
            ..no_stats()
        };
        lemma_begin_batch(
            RunView { stats, known: t.known, stage: StageView::Done, ..idle },
            job,
        );
    }
}

/// A run stays in order after an answer to a review.
proof fn lemma_review_step(r: RunView, event: EventView, job: Job)
    requires
        run_valid(r, job),
        r.stage is Review,
    ensures
        run_valid(run_step(r, event, job), job),
{
    if let StageView::Review { second, picks, prompt, attempt } = r.stage {
        let rest = RunView { stage: StageView::Done, ..r };
        lemma_after_review(rest, picks, second, job);
        if let EventView::Items(Reply::Parsed(fixes)) = event {
            let (translated, n) = merge::fixed(job.segments, r.translated, picks, fixes);
            merge::law_fixes_keep_the_timeline(job.segments, r.translated, picks, fixes);
            let u = RunView {
                stats: TranslateStats {
                    reviewed: ask::plus(r.stats.reviewed, picks.len() as int),
                    review_fixed: ask::plus(r.stats.review_fixed, n as int),
                    ..r.stats
                },
                translated,
                ..rest
            };
            lemma_same_timeline(translated, r.translated, job.segments);
            lemma_after_review(u, picks, second, job);
        }
    }
}

/// A run stays in order after an event for its present batch.
proof fn lemma_batch_went_on(r: RunView, event: EventView, job: Job)
    requires
        run_valid(r, job),
        r.stage is Batch,
    ensures
        run_valid(run_step(r, event, job), job),
{
    batches::lemma_tiles(job.plan, 0, job.segments.len() as int);
    if let StageView::Batch(t) = r.stage {
        let (u, stats) = batch::batch_step(t, r.stats, event, setting(r, job));
        batch::lemma_batch_step(t, r.stats, event, setting(r, job));
        let rest = RunView { stats, stage: StageView::Done, ..r };
        lemma_batch_lost(rest, job);
        lemma_begin_batch(batch_lost(rest, job), job);
        lemma_batch_found(rest, u.items, job);
    }
}

/// A run stays in order after an event while it finds out what the film is about.
proof fn lemma_context_found(r: RunView, event: EventView, job: Job)
    requires
        run_valid(r, job),
        r.stage is Context,
    ensures
        run_valid(run_step(r, event, job), job),
{
    batches::lemma_tiles(job.plan, 0, job.segments.len() as int);
    if let StageView::Context(t) = r.stage {
        let (u, stats) = context::context_step(t, r.stats, event, job.cfg, job.templates);
        context::lemma_context_step(t, r.stats, event, job.cfg, job.templates);
        lemma_begin_batch(RunView { stats, known: u.known, stage: StageView::Done, ..r }, job);
    }
}

/// A run that is over has translated all.
proof fn lemma_done_is_all(r: RunView, job: Job)
    requires
        run_valid(r, job),
    ensures
        r.stage is Done ==> merge::same_timeline(r.translated, job.segments),
{
    if r.stage is Done {
        assert(job.segments.take(job.segments.len() as int) =~= job.segments);
    }
}

/// Whatever the model answers, a run stays in order: the translated subtitles are always the first
/// ones of the film, at their times and under their numbers. When the run is over, they are all of
/// them.
pub proof fn law_run_keeps_the_timeline(r: RunView, event: EventView, job: Job)
    requires
        run_valid(r, job),
    ensures
        run_valid(run_step(r, event, job), job),
        run_step(r, event, job).stage is Done ==> merge::same_timeline(
            run_step(r, event, job).translated,
            job.segments,
        ),
{
    match r.stage {
        StageView::Context(_) => {
            lemma_context_found(r, event, job);
        },
        StageView::Batch(_) => {
            lemma_batch_went_on(r, event, job);
        },
        StageView::Review { .. } => {
            lemma_review_step(r, event, job);
        },
        StageView::Done => {},
    }
    lemma_done_is_all(run_step(r, event, job), job);
}

} // verus!
