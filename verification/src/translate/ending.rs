//! A run comes to an end.

use vstd::prelude::*;

use crate::translate::ask::EventView;
use crate::translate::attempt::Outcome;
use crate::translate::batch::{BatchSetting, BatchStageView, BatchTaskView, Piece};
use crate::translate::context::{ContextStageView, ContextTaskView};
use crate::translate::run::{Job, RunView, StageView};
use crate::translate::{ask, attempt, batch, batches, context, merge, run};
use crate::types::TranslateStats;

verus! {

/// The event answers what the run has asked for.
pub open spec fn answers(event: EventView, r: RunView) -> bool {
    match r.stage {
        StageView::Context(t) => match t.stage {
            ContextStageView::Tokens { prompt, last } => event is Tokens,
            ContextStageView::Reply { task, last } => event is Context,
            ContextStageView::JoinedTokens { joined } => event is Tokens,
            ContextStageView::Done => false,
        },
        StageView::Batch(t) => match t.stage {
            BatchStageView::Tokens { prompt } => event is Tokens,
            BatchStageView::Reply { task } => event is Items,
            _ => false,
        },
        StageView::Review { second, picks, prompt, attempt } => event is Items,
        StageView::Done => false,
    }
}

/// How much may be left to do, in levels from the coarsest to the finest.
pub struct Left {
    /// The batches, and the context before them.
    pub batches: int,
    /// The chunks of the context; or the translation and the reviews of a batch.
    pub rounds: int,
    /// The pieces of a batch, and those that they may be cut into.
    pub pieces: int,
    /// The tokens of a prompt.
    pub prompts: int,
    /// The attempts.
    pub attempts: int,
}

/// Less is left: less on some level, and as much on the coarser ones.
pub open spec fn less(a: Left, b: Left) -> bool {
    ||| a.batches < b.batches
    ||| a.batches == b.batches && a.rounds < b.rounds
    ||| a.batches == b.batches && a.rounds == b.rounds && a.pieces < b.pieces
    ||| a.batches == b.batches && a.rounds == b.rounds && a.pieces == b.pieces && a.prompts
        < b.prompts
    ||| a.batches == b.batches && a.rounds == b.rounds && a.pieces == b.pieces && a.prompts
        == b.prompts && a.attempts < b.attempts
}

/// No level is below nothing, so that less and less cannot be left forever.
pub open spec fn something(a: Left) -> bool {
    a.batches >= 0 && a.rounds >= 0 && a.pieces >= 0 && a.prompts >= 0 && a.attempts >= 0
}

/// The pieces, and those that they may be cut into.
pub open spec fn pieces_left(pieces: Seq<Piece>) -> int
    decreases pieces.len(),
{
    if pieces.len() == 0 {
        0
    } else {
        pieces_left(pieces.drop_last()) + 2 * (pieces.last().hi - pieces.last().lo) - 1
    }
}

pub open spec fn context_left(t: ContextTaskView, batches: int) -> Left {
    match t.stage {
        ContextStageView::Tokens { prompt, last } => Left {
            batches,
            rounds: if last {
                1
            } else {
                t.chunks.len() - t.next + 2
            },
            pieces: 0,
            prompts: 1,
            attempts: 0,
        },
        ContextStageView::Reply { task, last } => Left {
            batches,
            rounds: if last {
                1
            } else {
                t.chunks.len() - t.next + 2
            },
            pieces: 0,
            prompts: 0,
            attempts: task.attempts - task.attempt,
        },
        ContextStageView::JoinedTokens { joined } => Left {
            batches,
            rounds: 2,
            pieces: 0,
            prompts: 0,
            attempts: 0,
        },
        ContextStageView::Done => Left { batches, rounds: 0, pieces: 0, prompts: 0, attempts: 0 },
    }
}

pub open spec fn batch_left(t: BatchTaskView, batches: int) -> Left {
    match t.stage {
        BatchStageView::Reply { task } => Left {
            batches,
            rounds: 3,
            pieces: pieces_left(t.pieces),
            prompts: 0,
            attempts: task.attempts - task.attempt,
        },
        _ => Left {
            batches,
            rounds: 3,
            pieces: pieces_left(t.pieces),
            prompts: 1,
            attempts: 0,
        },
    }
}

/// How much may be left to do in a run.
pub open spec fn left(r: RunView, job: Job) -> Left {
    match r.stage {
        StageView::Context(t) => context_left(t, job.plan.len() as int + 1),
        StageView::Batch(t) => batch_left(t, job.plan.len() - r.batch),
        StageView::Review { second, picks, prompt, attempt } => Left {
            batches: job.plan.len() - r.batch,
            rounds: if second {
                1
            } else {
                2
            },
            pieces: 0,
            prompts: 0,
            attempts: run::REVIEW_ATTEMPTS - attempt,
        },
        StageView::Done => Left { batches: 0, rounds: 0, pieces: 0, prompts: 0, attempts: 0 },
    }
}

proof fn lemma_begin_batch_left(r: RunView, job: Job)
    requires
        0 <= r.batch <= job.plan.len(),
    ensures
        left(run::begin_batch(r, job), job).batches <= job.plan.len() - r.batch,
    decreases job.plan.len() - r.batch,
{
    if r.batch < job.plan.len() {
        let begun = RunView {
            stats: TranslateStats { batches: ask::plus(r.stats.batches, 1), ..r.stats },
            ..r
        };
        let t = batch::batch_start(
            job.plan[r.batch].0 as usize,
            job.plan[r.batch].1 as usize,
            run::setting(r, job),
        );
        if t.stage is Lost {
            lemma_begin_batch_left(run::batch_lost(begun, job), job);
        }
    }
}

/// After a review less is left than before it.
proof fn lemma_after_review_left(r: RunView, picks: Seq<int>, second: bool, job: Job)
    requires
        0 <= r.batch < job.plan.len(),
    ensures
        ({
            let after = left(run::after_review(r, picks, second, job), job);
            ||| after.batches < job.plan.len() - r.batch
            ||| !second && after.batches == job.plan.len() - r.batch && after.rounds == 1
        }),
{
    let script = job.cfg.residual_script@;
    let rest = merge::still_residual(r.translated, picks, script);
    let n = merge::still_residual(r.translated, rest, script).len();
    lemma_begin_batch_left(RunView { batch: r.batch + 1, stage: StageView::Done, ..r }, job);
    let a = RunView {
        stats: TranslateStats {
            residual: ask::plus(r.stats.residual, rest.len() as int),
            ..r.stats
        },
        ..r
    };
    lemma_begin_batch_left(RunView { batch: a.batch + 1, stage: StageView::Done, ..a }, job);
    let b = RunView {
        stats: TranslateStats { residual: ask::plus(r.stats.residual, n as int), ..r.stats },
        ..r
    };
    lemma_begin_batch_left(RunView { batch: b.batch + 1, stage: StageView::Done, ..b }, job);
}

proof fn lemma_batch_found_left(r: RunView, items: Seq<crate::types::ItemView>, job: Job)
    requires
        0 <= r.batch < job.plan.len(),
    ensures
        ({
            let after = left(run::batch_found(r, items, job), job);
            ||| after.batches < job.plan.len() - r.batch
            ||| after.batches == job.plan.len() - r.batch && after.rounds < 3
        }),
{
    let cues = run::batch_cues(r, job);
    let (lo, hi) = job.plan[r.batch];
    let u = RunView {
        stats: merge::merge_stats(r.stats, cues, items, cues.len() as int),
        translated: r.translated + merge::merged(cues, items),
        stage: StageView::Done,
        ..r
    };
    lemma_begin_batch_left(RunView { batch: u.batch + 1, stage: StageView::Done, ..u }, job);
    lemma_after_review_left(u, run::span_of(lo, hi), false, job);
}

proof fn lemma_halved_left(pieces: Seq<Piece>)
    requires
        pieces.len() > 0,
        pieces.last().hi - pieces.last().lo > 1,
        pieces.last().depth < batch::MAX_DEPTH,
    ensures
        pieces_left(batch::halved(pieces)) < pieces_left(pieces),
{
    let p = pieces.last();
    let mid = batch::middle(p) as usize;
    let depth = (p.depth + 1) as usize;
    let second = pieces.drop_last().push(Piece { lo: mid, hi: p.hi, depth });
    assert(p.lo < batch::middle(p) < p.hi);
    assert(second.drop_last() =~= pieces.drop_last());
    assert(pieces_left(second) == pieces_left(pieces.drop_last()) + 2 * (p.hi - mid) - 1);
    let all = batch::halved(pieces);
    assert(all.drop_last() =~= second);
    assert(all.last() == Piece { lo: p.lo, hi: mid, depth });
}

proof fn lemma_pieces_left(pieces: Seq<Piece>)
    requires
        forall|k: int| 0 <= k < pieces.len() ==> (#[trigger] pieces[k]).lo < pieces[k].hi,
    ensures
        pieces_left(pieces) >= 0,
    decreases pieces.len(),
{
    if pieces.len() > 0 {
        assert(pieces[pieces.len() - 1] == pieces.last());
        lemma_pieces_left(pieces.drop_last());
    }
}

proof fn lemma_next_chunk_left(
    t: ContextTaskView,
    templates: Map<Seq<char>, Seq<char>>,
    batches: int,
)
    requires
        0 <= t.next <= t.chunks.len(),
    ensures
        ({
            let u = context::next_chunk(t, templates);
            u.stage is Done || context_left(u, batches).rounds <= t.chunks.len() - t.next + 2
        }),
    decreases t.chunks.len() - t.next,
{
    if t.next < t.chunks.len() && crate::translate::prompts::summary_prompt(
        templates,
        t.chunks[t.next],
    ) is None {
        lemma_next_chunk_left(ContextTaskView { next: t.next + 1, ..t }, templates, batches);
    }
}

proof fn lemma_context_left(
    t: ContextTaskView,
    stats: TranslateStats,
    event: EventView,
    job: Job,
    batches: int,
)
    requires
        context::context_valid(t),
        t.stage is Tokens ==> event is Tokens,
        t.stage is Reply ==> event is Context,
        t.stage is JoinedTokens ==> event is Tokens,
        !(t.stage is Done),
    ensures
        ({
            let u = context::context_step(t, stats, event, job.cfg, job.templates).0;
            u.stage is Done || less(context_left(u, batches), context_left(t, batches))
        }),
{
    if let (ContextStageView::Reply { task, last }, EventView::Context(r)) = (t.stage, event) {
        let rest = context::at_rest(t);
        if !last {
            let skipped = ContextTaskView { next: t.next + 1, ..rest };
            lemma_next_chunk_left(skipped, job.templates, batches);
            if let Outcome::Found(c) = attempt::summary_next(task, r) {
                let grown = ContextTaskView { next: t.next + 1, ..context::with_chunk(rest, c) };
                lemma_next_chunk_left(grown, job.templates, batches);
            }
        }
    }
}

proof fn lemma_batch_left(
    t: BatchTaskView,
    stats: TranslateStats,
    event: EventView,
    w: BatchSetting,
    batches: int,
)
    requires
        batch::batch_valid(t, w.segments.len() as int),
        t.stage is Tokens ==> event is Tokens,
        t.stage is Reply ==> event is Items,
        t.stage is Tokens || t.stage is Reply,
    ensures
        ({
            let u = batch::batch_step(t, stats, event, w).0;
            u.stage is Done || u.stage is Lost || less(
                batch_left(u, batches),
                batch_left(t, batches),
            )
        }),
{
    let p = t.pieces[t.pieces.len() - 1];
    if t.stage is Tokens && p.hi - p.lo > 1 && p.depth < batch::MAX_DEPTH {
        lemma_halved_left(t.pieces);
    }
}

/// Every answer brings a run nearer to its end: less is left to do after it than before, whatever
/// the answer is. Since less cannot be left forever, every run ends.
pub proof fn law_every_run_ends(r: RunView, event: EventView, job: Job)
    requires
        run::run_valid(r, job),
        answers(event, r),
    ensures
        less(left(run::run_step(r, event, job), job), left(r, job)),
        something(left(r, job)),
{
    match r.stage {
        StageView::Context(t) => {
            let (u, stats) = context::context_step(t, r.stats, event, job.cfg, job.templates);
            lemma_context_left(t, r.stats, event, job, job.plan.len() as int + 1);
            lemma_begin_batch_left(
                RunView { stats, known: u.known, stage: StageView::Done, ..r },
                job,
            );
        },
        StageView::Batch(t) => {
            let w = run::setting(r, job);
            let (u, stats) = batch::batch_step(t, r.stats, event, w);
            lemma_batch_left(t, r.stats, event, w, job.plan.len() - r.batch);
            lemma_pieces_left(t.pieces);
            let rest = RunView { stats, stage: StageView::Done, ..r };
            lemma_batch_found_left(rest, u.items, job);
            lemma_begin_batch_left(run::batch_lost(rest, job), job);
        },
        StageView::Review { second, picks, prompt, attempt } => {
            let rest = RunView { stage: StageView::Done, ..r };
            lemma_after_review_left(rest, picks, second, job);
            if let EventView::Items(ask::Reply::Parsed(fixes)) = event {
                let (translated, n) = merge::fixed(job.segments, r.translated, picks, fixes);
                let u = RunView {
                    stats: TranslateStats {
                        reviewed: ask::plus(r.stats.reviewed, picks.len() as int),
                        review_fixed: ask::plus(r.stats.review_fixed, n as int),
                        ..r.stats
                    },
                    translated,
                    ..rest
                };
                lemma_after_review_left(u, picks, second, job);
            }
        },
        StageView::Done => {},
    }
}

/// While a run is not over, it asks for something, and what it asks for can be answered.
pub proof fn law_a_run_asks_until_it_ends(r: RunView, job: Job)
    requires
        run::run_valid(r, job),
    ensures
        run::run_action(r, job.cfg) is Finish <==> r.stage is Done,
        !(r.stage is Done) ==> exists|event: EventView| answers(event, r),
{
    match r.stage {
        StageView::Context(t) => match t.stage {
            ContextStageView::Reply { task, last } => {
                assert(answers(EventView::Context(ask::Reply::Failed), r));
            },
            _ => {
                assert(answers(EventView::Tokens(0), r));
            },
        },
        StageView::Batch(t) => match t.stage {
            BatchStageView::Reply { task } => {
                assert(answers(EventView::Items(ask::Reply::Failed), r));
            },
            _ => {
                assert(answers(EventView::Tokens(0), r));
            },
        },
        StageView::Review { second, picks, prompt, attempt } => {
            assert(answers(EventView::Items(ask::Reply::Failed), r));
        },
        StageView::Done => {},
    }
}

} // verus!
