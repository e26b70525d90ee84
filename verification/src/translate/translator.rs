//! The translator.

use vstd::prelude::*;

use crate::llm::chat::resample_seed;
use crate::prompt::PromptStore;
use crate::text::chars::same_text;
use crate::translate::ask::{count_up, items_max_new, Action, ChatRequest, Event, Reply, REVIEW_SYSTEM};
use crate::translate::batch::{BatchStage, BatchTask, BatchWork};
use crate::translate::batches::plan_batches;
use crate::translate::context::{ContextStage, ContextTask};
use crate::translate::merge::{apply_fixes, find_residual, merge_batch};
use crate::translate::prompts::{build_review_prompt, TranslateConfig};
use crate::translate::run::{Job, RunView, StageView, REVIEW_ATTEMPTS, REVIEW_SEED_OFFSET};
use crate::translate::{ask, batch, batches, context, merge, prompts, run};
use crate::types;
use crate::types::{GlobalContext, SegmentView, SubtitleSegment, TranslateItem, TranslateStats};

verus! {

/// What a run works on.
pub struct Desk {
    pub cfg: TranslateConfig,
    pub store: PromptStore,
    pub segments: Vec<SubtitleSegment>,
    pub plan: Vec<(usize, usize)>,
}

impl View for Desk {
    type V = Job;

    open spec fn view(&self) -> Job {
        Job {
            cfg: self.cfg,
            templates: self.store.templates@,
            segments: types::cues(self.segments@),
            plan: batches::ranges(self.plan@),
        }
    }
}

/// How far a run is.
pub struct Progress {
    pub stats: TranslateStats,
    pub known: GlobalContext,
    pub translated: Vec<SubtitleSegment>,
    /// The batch that is being translated.
    pub batch: usize,
}

/// What a run is at.
pub enum Stage {
    /// Finding out what the film is about.
    Context(ContextTask),
    /// Translating a batch.
    Batch(BatchTask),
    /// Having the translations at the positions `picks` reviewed, for the second time if `second`.
    Review { second: bool, picks: Vec<usize>, prompt: String, attempt: usize },
    /// The film is translated.
    Done,
}

impl View for Stage {
    type V = StageView;

    open spec fn view(&self) -> StageView {
        match *self {
            Stage::Context(t) => StageView::Context(t@),
            Stage::Batch(t) => StageView::Batch(t@),
            Stage::Review { second, picks, prompt, attempt } => StageView::Review {
                second,
                picks: prompts::positions(picks@),
                prompt: prompt@,
                attempt: attempt as int,
            },
            Stage::Done => StageView::Done,
        }
    }
}

/// The state of a run that is at a stage.
pub open spec fn state(p: Progress, stage: StageView) -> RunView {
    RunView {
        stats: p.stats,
        known: p.known@,
        translated: types::cues(p.translated@),
        batch: p.batch as int,
        stage,
    }
}

/// The batches are stretches of the film, one after the other.
pub open spec fn plan_covers(desk: Desk) -> bool {
    batches::tiles(desk@.plan, 0, desk.segments@.len() as int)
}

proof fn lemma_plan(desk: Desk, k: int)
    requires
        plan_covers(desk),
        0 <= k < desk.plan@.len(),
    ensures
        desk@.plan[k] == (desk.plan@[k].0 as int, desk.plan@[k].1 as int),
        desk.plan@[k].0 < desk.plan@[k].1 <= desk.segments@.len(),
{
    batches::lemma_tiles(desk@.plan, 0, desk.segments@.len() as int);
    assert(desk@.plan[k].0 < desk@.plan[k].1);
}

/// What the next batch is translated with.
fn work_of<'a>(desk: &'a Desk, p: &'a Progress) -> (r: BatchWork<'a>)
    ensures
        r@ == run::setting(state(*p, StageView::Done), desk@),
        r.segments == &desk.segments,
{
    let n: usize = p.translated.len();
    let from: usize = if n < desk.cfg.context_size {
        0
    } else {
        n - desk.cfg.context_size
    };
    let before = &p.translated.as_slice()[from..n];
    assert(types::cues(before@) =~= run::recent(
        types::cues(p.translated@),
        desk.cfg.context_size as int,
    ));
    BatchWork {
        cfg: &desk.cfg,
        store: &desk.store,
        known: &p.known,
        context: before,
        segments: &desk.segments,
    }
}

/// The present batch stays as it is.
fn keep_batch(desk: &Desk, p: &mut Progress)
    requires
        plan_covers(*desk),
        old(p).batch < desk.plan@.len(),
    ensures
        state(*final(p), StageView::Done) == run::batch_lost(
            state(*old(p), StageView::Done),
            desk@,
        ),
        final(p).batch == old(p).batch + 1,
{
    let ghost before = types::cues(p.translated@);
    let ghost k = p.batch as int;
    proof {
        lemma_plan(*desk, k);
    }
    let (lo, hi) = desk.plan[p.batch];
    let ghost cues = desk@.segments.subrange(lo as int, hi as int);
    p.stats.failed_batches = count_up(p.stats.failed_batches, 1);
    p.stats.untranslated = count_up(p.stats.untranslated, hi - lo);
    assert(before + cues.take(0) =~= before);
    let ghost stats = p.stats;
    let ghost known = p.known@;
    for i in lo..hi
        invariant
            lo <= hi <= desk.segments@.len(),
            cues == desk@.segments.subrange(lo as int, hi as int),
            types::cues(p.translated@) == before + cues.take(i - lo),
            p.batch == old(p).batch,
            p.stats == stats,
            p.known@ == known,
    {
        let ghost so_far = types::cues(p.translated@);
        p.translated.push(desk.segments[i].clone());
        proof {
            let cue = desk.segments@[i as int]@;
            assert(cues[i - lo] == cue);
            assert(types::cues(p.translated@) =~= so_far.push(cue));
            assert(before + cues.take(i - lo + 1) =~= (before + cues.take(i - lo)).push(cue));
        }
    }
    assert(cues.take(hi - lo) =~= cues);
    assert(p.batch < desk.plan.len());
    p.batch = p.batch + 1;
}

/// Begins the next batch that can be asked for.
fn begin_batch(desk: &Desk, p: &mut Progress) -> (stage: Stage)
    requires
        plan_covers(*desk),
        old(p).batch <= desk.plan@.len(),
    ensures
        state(*final(p), stage@) == run::begin_batch(state(*old(p), StageView::Done), desk@),
{
    let n: usize = desk.plan.len();
    let ghost want = run::begin_batch(state(*p, StageView::Done), desk@);
    assert(desk@.plan.len() == n);
    while p.batch < n
        invariant
            plan_covers(*desk),
            n == desk.plan@.len(),
            desk@.plan.len() == n,
            p.batch <= n,
            want == run::begin_batch(state(*old(p), StageView::Done), desk@),
            want == run::begin_batch(state(*p, StageView::Done), desk@),
        decreases n - p.batch,
    {
        let ghost before = state(*p, StageView::Done);
        let ghost k = p.batch as int;
        proof {
            lemma_plan(*desk, k);
        }
        let (lo, hi) = desk.plan[p.batch];
        let t = BatchTask::start(lo, hi, &work_of(desk, p));
        p.stats.batches = count_up(p.stats.batches, 1);
        proof {
            let begun = RunView {
                stats: TranslateStats {
                    batches: ask::plus(before.stats.batches, 1),
                    ..before.stats
                },
                ..before
            };
            assert(state(*p, StageView::Done) =~= begun);
            batch::lemma_batch_start(lo, hi, run::setting(before, desk@));
        }
        match &t.stage {
            BatchStage::Lost => {
                keep_batch(desk, p);
            },
            _ => {
                return Stage::Batch(t);
            },
        }
    }
    Stage::Done
}

/// The present batch is over.
fn next_batch(desk: &Desk, p: &mut Progress) -> (stage: Stage)
    requires
        plan_covers(*desk),
        old(p).batch < desk.plan@.len(),
    ensures
        state(*final(p), stage@) == run::next_batch(state(*old(p), StageView::Done), desk@),
{
    assert(p.batch < desk.plan.len());
    p.batch = p.batch + 1;
    begin_batch(desk, p)
}

/// The prompt for a review.
fn review_text(desk: &Desk, p: &Progress, picks: &Vec<usize>, second: bool) -> (r: Option<String>)
    requires
        merge::picks_valid(picks@, desk.segments@.len() as int, p.translated@.len() as int),
    ensures
        prompts::view_of(r) == run::review_text(
            state(*p, StageView::Done),
            prompts::positions(picks@),
            second,
            desk@,
        ),
{
    build_review_prompt(
        &desk.cfg,
        &desk.store,
        &p.known,
        &desk.segments,
        &p.translated,
        picks,
        second,
    )
}

/// The second review is over.
fn after_second_review(desk: &Desk, p: &mut Progress, picks: &Vec<usize>) -> (stage: Stage)
    requires
        plan_covers(*desk),
        old(p).batch < desk.plan@.len(),
        merge::picks_valid(
            picks@,
            old(p).translated@.len() as int,
            old(p).translated@.len() as int,
        ),
    ensures
        state(*final(p), stage@) == run::after_second_review(
            state(*old(p), StageView::Done),
            prompts::positions(picks@),
            desk@,
        ),
{
    let left = find_residual(&p.translated, picks, desk.cfg.residual_script.as_str());
    assert(prompts::positions(left@).len() == left@.len());
    p.stats.residual = count_up(p.stats.residual, left.len());
    next_batch(desk, p)
}

/// The first review is over.
fn after_first_review(desk: &Desk, p: &mut Progress, picks: &Vec<usize>) -> (stage: Stage)
    requires
        plan_covers(*desk),
        old(p).batch < desk.plan@.len(),
        old(p).translated@.len() <= desk.segments@.len(),
        merge::picks_valid(
            picks@,
            old(p).translated@.len() as int,
            old(p).translated@.len() as int,
        ),
    ensures
        state(*final(p), stage@) == run::after_first_review(
            state(*old(p), StageView::Done),
            prompts::positions(picks@),
            desk@,
        ),
{
    let script = desk.cfg.residual_script.as_str();
    let left = find_residual(&p.translated, picks, script);
    assert(prompts::positions(left@).len() == left@.len());
    if same_text(script, "none") || left.len() == 0 {
        return next_batch(desk, p);
    }
    match review_text(desk, p, &left, true) {
        Some(prompt) => Stage::Review { second: true, picks: left, prompt, attempt: 1 },
        None => after_second_review(desk, p, &left),
    }
}

/// The positions from `lo` up to `hi`.
fn span(lo: usize, hi: usize) -> (r: Vec<usize>)
    requires
        lo <= hi,
    ensures
        prompts::positions(r@) == run::span_of(lo as int, hi as int),
        merge::picks_valid(r@, hi as int, hi as int),
{
    let mut r: Vec<usize> = Vec::new();
    for i in lo..hi
        invariant
            lo <= hi,
            r@.len() == i - lo,
            forall|k: int| 0 <= k < r@.len() ==> #[trigger] r@[k] == lo + k,
    {
        r.push(i);
    }
    assert(prompts::positions(r@) =~= run::span_of(lo as int, hi as int));
    r
}

/// The present batch is translated.
fn batch_found(desk: &Desk, p: &mut Progress, items: &Vec<TranslateItem>) -> (stage: Stage)
    requires
        plan_covers(*desk),
        old(p).batch < desk.plan@.len(),
        old(p).translated@.len() == desk.plan@[old(p).batch as int].0,
    ensures
        state(*final(p), stage@) == run::batch_found(
            state(*old(p), StageView::Done),
            types::entries(items@),
            desk@,
        ),
{
    let ghost before = state(*p, StageView::Done);
    proof {
        lemma_plan(*desk, p.batch as int);
    }
    let (lo, hi) = desk.plan[p.batch];
    let part = &desk.segments.as_slice()[lo..hi];
    let ghost cues = run::batch_cues(before, desk@);
    assert(types::cues(part@) =~= cues);
    merge_batch(part, items, &mut p.translated, &mut p.stats);
    let ghost merged = RunView {
        stats: merge::merge_stats(
            before.stats,
            cues,
            types::entries(items@),
            cues.len() as int,
        ),
        translated: before.translated + merge::merged(cues, types::entries(items@)),
        stage: StageView::Done,
        ..before
    };
    assert(state(*p, StageView::Done) =~= merged);
    assert(merged.translated.len() == p.translated@.len());
    if !desk.cfg.review_enabled {
        return next_batch(desk, p);
    }
    let picks = span(lo, hi);
    match review_text(desk, p, &picks, false) {
        Some(prompt) => Stage::Review { second: false, picks, prompt, attempt: 1 },
        None => after_first_review(desk, p, &picks),
    }
}

/// The state after an answer to a review.
fn review_step(
    desk: &Desk,
    p: &mut Progress,
    second: bool,
    picks: Vec<usize>,
    prompt: String,
    attempt: usize,
    reply: Reply<Vec<TranslateItem>>,
) -> (stage: Stage)
    requires
        plan_covers(*desk),
        old(p).batch < desk.plan@.len(),
        old(p).translated@.len() <= desk.segments@.len(),
        attempt <= REVIEW_ATTEMPTS,
        merge::picks_valid(
            picks@,
            old(p).translated@.len() as int,
            old(p).translated@.len() as int,
        ),
    ensures
        state(*final(p), stage@) == run::review_step(
            state(
                *old(p),
                StageView::Review {
                    second,
                    picks: prompts::positions(picks@),
                    prompt: prompt@,
                    attempt: attempt as int,
                },
            ),
            second,
            prompts::positions(picks@),
            prompt@,
            attempt as int,
            ask::items_reply(reply),
            desk@,
        ),
{
    match reply {
        Reply::Parsed(fixes) => {
            assert(prompts::positions(picks@).len() == picks@.len());
            let n: usize = apply_fixes(&desk.segments, &mut p.translated, &picks, &fixes);
            p.stats.reviewed = count_up(p.stats.reviewed, picks.len());
            p.stats.review_fixed = count_up(p.stats.review_fixed, n);
        },
        _ => {
            if attempt < REVIEW_ATTEMPTS {
                return Stage::Review { second, picks, prompt, attempt: attempt + 1 };
            }
        },
    }
    if second {
        after_second_review(desk, p, &picks)
    } else {
        after_first_review(desk, p, &picks)
    }
}

/// A run: what it works on, how far it is, and what it is at.
pub struct Translator {
    pub desk: Desk,
    pub progress: Progress,
    pub stage: Stage,
}

impl View for Translator {
    type V = RunView;

    open spec fn view(&self) -> RunView {
        state(self.progress, self.stage@)
    }
}

impl Translator {
    /// The run is in order.
    pub open spec fn valid(&self) -> bool {
        run::run_valid(self@, self.desk@)
    }

    /// Starts a run, given how many tokens each subtitle has.
    pub fn new(
        segments: Vec<SubtitleSegment>,
        counts: &Vec<usize>,
        store: PromptStore,
        cfg: TranslateConfig,
    ) -> (r: Self)
        requires
            segments@.len() == counts@.len(),
        ensures
            r.desk@ == run::job_of(cfg, store.templates@, types::cues(segments@)),
            r@ == run::run_start(counts@, r.desk@),
            r.valid(),
    {
        let plan = plan_batches(segments.as_slice(), cfg.batch_size, cfg.batch_chars);
        let desk = Desk { cfg, store, segments, plan };
        let ghost job = desk@;
        proof {
            batches::law_plan_batches(
                job.segments,
                desk.cfg.batch_size as int,
                desk.cfg.batch_chars as int,
            );
            assert(job.segments.len() == desk.segments@.len());
            assert(desk.segments.len() == desk.segments@.len());
            run::lemma_run_start(counts@, job);
        }
        let stats = TranslateStats::default();
        let known = GlobalContext::default();
        let translated: Vec<SubtitleSegment> = Vec::new();
        let mut progress = Progress { stats, known, translated, batch: 0 };
        proof {
            assert(progress.known@.summary =~= Seq::<char>::empty());
            assert(progress.known@.glossary =~= Seq::<types::TermView>::empty());
            assert(types::cues(progress.translated@) =~= Seq::<SegmentView>::empty());
            assert(progress.known@ == context::nothing_known());
        }
        if desk.segments.len() == 0 {
            return Translator { desk, progress, stage: Stage::Done };
        }
        progress.stats.segments = desk.segments.len();
        let t = ContextTask::start(
            &desk.segments,
            counts,
            &desk.cfg,
            &desk.store,
            &mut progress.stats,
        );
        let stage = context_went_on(&desk, &mut progress, t);
        Translator { desk, progress, stage }
    }

    /// What is to be done.
    pub fn action(&self) -> (r: Action)
        requires
            self.valid(),
        ensures
            r@ == run::run_action(self@, self.desk@.cfg),
    {
        let cfg = &self.desk.cfg;
        match &self.stage {
            Stage::Context(t) => t.action(cfg),
            Stage::Batch(t) => t.action(cfg),
            Stage::Review { second, picks, prompt, attempt } => {
                assert(prompts::positions(picks@).len() == picks@.len());
                Action::Ask(
                    ChatRequest {
                        system: REVIEW_SYSTEM.to_string(),
                        prompt: prompt.clone(),
                        seed: resample_seed(cfg.seed, *attempt + REVIEW_SEED_OFFSET),
                        max_new: items_max_new(cfg.translate_tokens_per_item, picks.len()),
                        array: true,
                    },
                )
            },
            Stage::Done => Action::Finish,
        }
    }

    /// Takes the answer to what was to be done.
    pub fn step(self, event: Event) -> (r: Self)
        requires
            self.valid(),
        ensures
            r.desk == self.desk,
            r@ == run::run_step(self@, event@, self.desk@),
            r.valid(),
    {
        let ghost before = self@;
        let ghost job = self.desk@;
        proof {
            run::law_run_keeps_the_timeline(before, event@, job);
            assert(before.translated.len() == self.progress.translated@.len());
            assert(job.segments.len() == self.desk.segments@.len());
            assert(job.plan.len() == self.desk.plan@.len());
        }
        let Translator { desk, progress, stage } = self;
        let mut progress: Progress = progress;
        let stage: Stage = match stage {
            Stage::Context(t) => {
                let t = t.step(event, &desk.cfg, &desk.store, &mut progress.stats);
                context_went_on(&desk, &mut progress, t)
            },
            Stage::Batch(t) => {
                let ghost was = progress;
                let mut stats: TranslateStats = progress.stats;
                let t = t.step(event, &work_of(&desk, &progress), &mut stats);
                progress.stats = stats;
                proof {
                    lemma_plan(desk, progress.batch as int);
                    assert(run::setting(state(was, StageView::Done), job) == run::setting(
                        before,
                        job,
                    ));
                }
                let BatchTask { pieces, items, stage } = t;
                match stage {
                    BatchStage::Done => batch_found(&desk, &mut progress, &items),
                    BatchStage::Lost => {
                        keep_batch(&desk, &mut progress);
                        begin_batch(&desk, &mut progress)
                    },
                    stage => Stage::Batch(BatchTask { pieces, items, stage }),
                }
            },
            Stage::Review { second, picks, prompt, attempt } => {
                proof {
                    let all = prompts::positions(picks@);
                    assert forall|k: int| 0 <= k < picks@.len() implies #[trigger] picks@[k]
                        < progress.translated@.len() by {
                        assert(all[k] == picks@[k]);
                    }
                }
                match event {
                    Event::Items(reply) => review_step(
                        &desk,
                        &mut progress,
                        second,
                        picks,
                        prompt,
                        attempt,
                        reply,
                    ),
                    _ => Stage::Review { second, picks, prompt, attempt },
                }
            },
            Stage::Done => Stage::Done,
        };
        Translator { desk, progress, stage }
    }

    /// Whether the film is translated.
    pub fn is_done(&self) -> (r: bool)
        ensures
            r == (self@.stage is Done),
    {
        match self.stage {
            Stage::Done => true,
            _ => false,
        }
    }

    /// The translated film, and what was counted on the way.
    pub fn finish(self) -> (r: (Vec<SubtitleSegment>, TranslateStats))
        requires
            self.valid(),
            self@.stage is Done,
        ensures
            types::cues(r.0@) == self@.translated,
            merge::same_timeline(types::cues(r.0@), self.desk@.segments),
            r.1 == self@.stats,
    {
        proof {
            let segments = self.desk@.segments;
            assert(segments.take(segments.len() as int) =~= segments);
        }
        (self.progress.translated, self.progress.stats)
    }
}

/// What is known of the film, or what is to be asked next.
fn context_went_on(desk: &Desk, p: &mut Progress, t: ContextTask) -> (stage: Stage)
    requires
        plan_covers(*desk),
        old(p).batch <= desk.plan@.len(),
    ensures
        state(*final(p), stage@) == run::context_found(
            state(*old(p), StageView::Done),
            t@,
            old(p).stats,
            desk@,
        ),
{
    let ContextTask { chunks, next, known, partials, stage } = t;
    match stage {
        ContextStage::Done => {
            p.known = known;
            begin_batch(desk, p)
        },
        stage => Stage::Context(ContextTask { chunks, next, known, partials, stage }),
    }
}

} // verus!
