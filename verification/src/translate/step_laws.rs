//! What goes to the model with a batch, and what comes after each answer.

use vstd::prelude::*;

use crate::llm::chat;
use crate::prompt;
use crate::text::{json, number, pieces, spaces};
use crate::translate::ask::{ActionView, EventView, Reply};
use crate::translate::attempt::Outcome;
use crate::translate::batch::{BatchSetting, BatchStageView, BatchTaskView};
use crate::translate::context::{ContextStageView, ContextTaskView};
use crate::translate::prompts::TranslateConfig;
use crate::translate::run::{Job, RunView, StageView};
use crate::translate::{ask, attempt, batch, batches, context, merge, prompts, run};
use crate::types;
use crate::types::{ContextView, ItemView, SegmentView, TranslateStats};

verus! {

/// The last translated subtitles go with a batch as its context: as many as are to, or all of them
/// while there are fewer, in their order. What is known of the film goes with it too.
pub proof fn law_the_last_translations_go_with_a_batch(r: RunView, job: Job)
    ensures
        ({
            let w = run::setting(r, job);
            let n = if r.translated.len() < job.cfg.context_size {
                r.translated.len() as int
            } else {
                job.cfg.context_size as int
            };
            &&& w.context.len() == n
            &&& forall|i: int|
                0 <= i < n ==> #[trigger] w.context[i] == r.translated[r.translated.len() - n + i]
            &&& w.known == r.known
            &&& w.segments == job.segments
            &&& w.templates == job.templates
            &&& w.cfg == job.cfg
        }),
{
}

/// The prompt for a batch is the template `translate_batch.txt` with six values: the two languages,
/// the summary, the glossary, the context and the batch. What there is nothing of is said to be
/// none.
pub proof fn law_a_batch_is_asked_for_with_its_context(
    cfg: TranslateConfig,
    templates: Map<Seq<char>, Seq<char>>,
    known: ContextView,
    context: Seq<SegmentView>,
    list: Seq<SegmentView>,
)
    ensures
        exists|vars: Map<Seq<char>, Seq<char>>|
            {
                &&& prompts::translate_prompt(cfg, templates, known, context, list)
                    == #[trigger] prompt::rendered(templates, "translate_batch.txt"@, vars)
                &&& vars.dom() =~= set![
                    "source_lang"@,
                    "target_lang"@,
                    "summary"@,
                    "glossary"@,
                    "context"@,
                    "batch"@,
                ]
                &&& vars["source_lang"@] == cfg.source_lang@
                &&& vars["target_lang"@] == cfg.target_lang@
                &&& vars["summary"@] == (if spaces::all_white(known.summary) {
                    "（无）"@
                } else {
                    spaces::trim(known.summary)
                })
                &&& vars["glossary"@] == types::glossary_lines(known.glossary)
                &&& vars["context"@] == (if context.len() == 0 {
                    "（无）"@
                } else {
                    types::compact_list(context)
                })
                &&& vars["batch"@] == types::compact_list(list)
            },
{
    lemma_names();
    spaces::lemma_blank(known.summary);
    let vars = prompts::translate_vars(cfg, known, context, list);
    assert(prompts::translate_prompt(cfg, templates, known, context, list) == prompt::rendered(
        templates,
        "translate_batch.txt"@,
        vars,
    ));
}

proof fn lemma_names()
    ensures
        "source_lang"@ != "target_lang"@ && "source_lang"@ != "summary"@,
        "source_lang"@ != "glossary"@ && "source_lang"@ != "context"@ && "source_lang"@ != "batch"@,
        "target_lang"@ != "summary"@ && "target_lang"@ != "glossary"@,
        "target_lang"@ != "context"@ && "target_lang"@ != "batch"@ && "target_lang"@ != "pairs"@,
        "summary"@ != "glossary"@ && "summary"@ != "context"@ && "summary"@ != "batch"@,
        "glossary"@ != "context"@ && "glossary"@ != "batch"@ && "glossary"@ != "pairs"@,
        "context"@ != "batch"@,
{
    reveal_strlit("source_lang");
    reveal_strlit("target_lang");
    reveal_strlit("summary");
    reveal_strlit("glossary");
    reveal_strlit("context");
    reveal_strlit("batch");
    reveal_strlit("pairs");
    assert("source_lang"@[0] == 's' && "target_lang"@[0] == 't');
    assert("summary"@[0] == 's' && "context"@[0] == 'c');
    assert("summary"@.len() == 7 && "context"@.len() == 7 && "glossary"@.len() == 8);
    assert("source_lang"@.len() == 11 && "target_lang"@.len() == 11);
    assert("batch"@.len() == 5 && "pairs"@.len() == 5);
}

/// The prompt for a review is the template `review_batch.txt` with the target language, the glossary
/// and the pairs under review; the second time, a stricter hint follows it.
pub proof fn law_a_review_is_asked_for_with_its_pairs(
    cfg: TranslateConfig,
    templates: Map<Seq<char>, Seq<char>>,
    known: ContextView,
    pairs: Seq<char>,
)
    ensures
        exists|vars: Map<Seq<char>, Seq<char>>|
            {
                &&& prompts::review_prompt(cfg, templates, known, pairs, false)
                    == #[trigger] prompt::rendered(templates, "review_batch.txt"@, vars)
                &&& vars.dom() =~= set!["target_lang"@, "glossary"@, "pairs"@]
                &&& vars["target_lang"@] == cfg.target_lang@
                &&& vars["glossary"@] == types::glossary_lines(known.glossary)
                &&& vars["pairs"@] == pairs
            },
        match prompts::review_prompt(cfg, templates, known, pairs, false) {
            Some(t) => prompts::review_prompt(cfg, templates, known, pairs, true) == Some(
                t + ask::STRICT_HINT@,
            ),
            None => prompts::review_prompt(cfg, templates, known, pairs, true) is None,
        },
{
    lemma_names();
    let vars = prompts::review_vars(cfg, known, pairs);
    assert(prompts::review_prompt(cfg, templates, known, pairs, false) =~= prompt::rendered(
        templates,
        "review_batch.txt"@,
        vars,
    ));
}

/// The prompt for a summary is the template `extract_context.txt` with the transcript.
pub proof fn law_a_summary_is_asked_for_with_its_transcript(
    templates: Map<Seq<char>, Seq<char>>,
    transcript: Seq<char>,
)
    ensures
        prompts::summary_prompt(templates, transcript) == prompt::rendered(
            templates,
            "extract_context.txt"@,
            map!["transcript"@ => transcript],
        ),
{
    assert(prompts::summary_vars(transcript) =~= map!["transcript"@ => transcript]);
}

/// A batch begins whole: its prompt is counted first, and it is lost if there is no prompt.
pub proof fn law_a_batch_begins_whole(lo: usize, hi: usize, w: BatchSetting)
    requires
        lo < hi <= w.segments.len(),
    ensures
        ({
            let t = batch::batch_start(lo, hi, w);
            let asked = prompts::translate_prompt(
                w.cfg,
                w.templates,
                w.known,
                w.context,
                w.segments.subrange(lo as int, hi as int),
            );
            &&& t.items.len() == 0
            &&& t.pieces.len() == 1 && t.pieces[0].lo == lo && t.pieces[0].hi == hi
            &&& t.pieces[0].depth == 0
            &&& asked is None <==> t.stage is Lost
            &&& asked matches Some(p) ==> t.stage == BatchStageView::Tokens { prompt: p }
        }),
{
}

/// A prompt that is longer than a prompt may be is cut in half if it is for more than one subtitle
/// and was cut fewer than four times: the first half, which is not the longer one, is next. After
/// four cuts the batch is lost. Any other prompt is asked with, and has room for its subtitles.
pub proof fn law_long_prompts_are_cut_in_half(
    t: BatchTaskView,
    stats: TranslateStats,
    n: int,
    w: BatchSetting,
)
    requires
        t.stage is Tokens,
        t.pieces.len() > 0,
        t.pieces.last().lo < t.pieces.last().hi,
        t.pieces.last().depth <= 4,
        stats.splits < usize::MAX,
    ensures
        ({
            let p = t.pieces.last();
            let (u, after) = batch::batch_step(t, stats, EventView::Tokens(n), w);
            let long = n > 512 && n + 2048 > w.cfg.n_ctx && p.hi - p.lo > 1;
            let rest = t.pieces.drop_last();
            &&& u.items == t.items
            &&& long && p.depth >= 4 ==> u.stage is Lost && after == stats
            &&& long && p.depth < 4 ==> {
                &&& u.pieces.len() == t.pieces.len() + 1
                &&& u.pieces.take(rest.len() as int) == rest
                &&& u.pieces.last().lo == p.lo
                &&& u.pieces.last().hi == u.pieces[rest.len() as int].lo
                &&& u.pieces[rest.len() as int].hi == p.hi
                &&& u.pieces.last().depth == p.depth + 1
                &&& u.pieces[rest.len() as int].depth == p.depth + 1
                &&& ({
                    let first = u.pieces.last().hi - u.pieces.last().lo;
                    let second = u.pieces[rest.len() as int].hi - u.pieces[rest.len() as int].lo;
                    first == second || first + 1 == second
                })
                &&& after == (TranslateStats { splits: (stats.splits + 1) as usize, ..stats })
            }
            &&& !long ==> {
                &&& u.pieces == t.pieces
                &&& u.stage matches BatchStageView::Reply { task } && task
                    == attempt::attempt_start(
                    t.stage->Tokens_prompt,
                    ask::items_room(
                        w.cfg.translate_tokens_per_item as int,
                        p.hi - p.lo,
                    ) as u32,
                    w.cfg.max_retries as int,
                )
                &&& after == stats
            }
        }),
{
    let p = t.pieces.last();
    let rest = t.pieces.drop_last();
    let cut = batch::halved(t.pieces);
    assert(cut.take(rest.len() as int) =~= rest);
    assert(0 <= (p.hi - p.lo) / 2 <= p.hi - p.lo);
}

/// The texts of a piece are kept when it is translated, after those of the pieces before, and the
/// next piece is begun; the batch is done when there is none.
pub proof fn law_pieces_follow_each_other(
    t: BatchTaskView,
    stats: TranslateStats,
    r: Reply<Seq<ItemView>>,
    w: BatchSetting,
)
    requires
        t.stage is Reply,
        t.pieces.len() > 0,
        attempt::attempt_next(
            t.stage->Reply_task,
            batch::piece_cues(w, t.pieces.last()),
            r,
        ) is Found,
    ensures
        ({
            let found = attempt::attempt_next(
                t.stage->Reply_task,
                batch::piece_cues(w, t.pieces.last()),
                r,
            )->Found_0;
            let u = batch::batch_step(t, stats, EventView::Items(r), w).0;
            &&& u.items == t.items + found
            &&& u.pieces == t.pieces.drop_last()
            &&& t.pieces.len() == 1 ==> u.stage is Done
            &&& t.pieces.len() > 1 ==> match prompts::translate_prompt(
                w.cfg,
                w.templates,
                w.known,
                w.context,
                batch::piece_cues(w, t.pieces[t.pieces.len() - 2]),
            ) {
                Some(p) => u.stage == BatchStageView::Tokens { prompt: p },
                None => u.stage is Lost,
            }
        }),
{
}

/// A batch that is translated is reviewed as a whole, each subtitle with its translation, exactly if
/// reviews are wanted and there is a prompt for one. `picks` are the positions of the batch.
pub proof fn law_translated_batches_are_reviewed(
    r: RunView,
    items: Seq<ItemView>,
    job: Job,
    picks: Seq<int>,
)
    requires
        0 <= r.batch < job.plan.len(),
        0 <= job.plan[r.batch].0 <= job.plan[r.batch].1 <= job.segments.len(),
        r.translated.len() == job.plan[r.batch].0,
        picks.len() == job.plan[r.batch].1 - job.plan[r.batch].0,
        forall|k: int| 0 <= k < picks.len() ==> #[trigger] picks[k] == job.plan[r.batch].0 + k,
    ensures
        ({
            let u = run::batch_found(r, items, job);
            let (lo, hi) = job.plan[r.batch];
            let all = r.translated + merge::merged(job.segments.subrange(lo, hi), items);
            let asked = prompts::review_prompt(
                job.cfg,
                job.templates,
                r.known,
                prompts::pair_list(job.segments, all, picks),
                false,
            );
            if job.cfg.review_enabled && asked is Some {
                &&& u.stage == (StageView::Review {
                    second: false,
                    picks,
                    prompt: asked.unwrap(),
                    attempt: 1,
                })
                &&& u.translated == all && u.batch == r.batch && u.known == r.known
            } else {
                u.stage is Review ==> u.stage->second
            }
        }),
{
    let (lo, hi) = job.plan[r.batch];
    let cues = run::batch_cues(r, job);
    let u = RunView {
        stats: merge::merge_stats(r.stats, cues, items, cues.len() as int),
        translated: r.translated + merge::merged(cues, items),
        stage: StageView::Done,
        ..r
    };
    assert(run::span_of(lo, hi) =~= picks);
    lemma_later_batch(u, job);
    lemma_first_review_over(u, picks, job);
}

/// A batch that begins is not under review.
proof fn lemma_begun_batch(r: RunView, job: Job)
    requires
        0 <= r.batch,
    ensures
        !(run::begin_batch(r, job).stage is Review),
    decreases job.plan.len() - r.batch,
{
    if r.batch < job.plan.len() {
        let begun = RunView {
            stats: TranslateStats { batches: ask::plus(r.stats.batches, 1), ..r.stats },
            ..r
        };
        lemma_begun_batch(run::batch_lost(begun, job), job);
    }
}

proof fn lemma_later_batch(r: RunView, job: Job)
    requires
        0 <= r.batch,
    ensures
        !(run::next_batch(r, job).stage is Review),
{
    lemma_begun_batch(RunView { batch: r.batch + 1, stage: StageView::Done, ..r }, job);
}

proof fn lemma_first_review_over(r: RunView, picks: Seq<int>, job: Job)
    requires
        0 <= r.batch,
    ensures
        run::after_first_review(r, picks, job).stage is Review ==> run::after_first_review(
            r,
            picks,
            job,
        ).stage->second,
{
    lemma_later_batch(r, job);
    let left = merge::still_residual(r.translated, picks, job.cfg.residual_script@);
    let n = merge::still_residual(r.translated, left, job.cfg.residual_script@).len();
    lemma_later_batch(
        RunView {
            stats: TranslateStats { residual: ask::plus(r.stats.residual, n as int), ..r.stats },
            ..r
        },
        job,
    );
}

/// After the first review of a batch comes a second one exactly if a script must not be left, some of
/// the translations under review have text of it, and there is a prompt; it is about these
/// translations only.
pub proof fn law_residue_is_reviewed_again(r: RunView, picks: Seq<int>, job: Job)
    requires
        0 <= r.batch,
    ensures
        ({
            let u = run::after_first_review(r, picks, job);
            let left = merge::still_residual(r.translated, picks, job.cfg.residual_script@);
            let asked = prompts::review_prompt(
                job.cfg,
                job.templates,
                r.known,
                prompts::pair_list(job.segments, r.translated, left),
                true,
            );
            if job.cfg.residual_script@ != "none"@ && left.len() > 0 && asked is Some {
                &&& u.stage == (StageView::Review {
                    second: true,
                    picks: left,
                    prompt: asked.unwrap(),
                    attempt: 1,
                })
                &&& u.translated == r.translated && u.batch == r.batch && u.known == r.known
            } else {
                !(u.stage is Review)
            }
        }),
{
    lemma_later_batch(r, job);
    let left = merge::still_residual(r.translated, picks, job.cfg.residual_script@);
    let n = merge::still_residual(r.translated, left, job.cfg.residual_script@).len();
    lemma_later_batch(
        RunView {
            stats: TranslateStats { residual: ask::plus(r.stats.residual, n as int), ..r.stats },
            ..r
        },
        job,
    );
}

/// A review that is answered applies its corrections to the translations under review; one that is
/// not is asked for a second time, and then passed over.
pub proof fn law_reviews_are_applied(
    r: RunView,
    second: bool,
    picks: Seq<int>,
    text: Seq<char>,
    attempt: int,
    reply: Reply<Seq<ItemView>>,
    job: Job,
)
    requires
        r.stage == (StageView::Review { second, picks, prompt: text, attempt }),
    ensures
        ({
            let u = run::run_step(r, EventView::Items(reply), job);
            &&& !(reply is Parsed) && attempt < 2 ==> u == RunView {
                stage: StageView::Review { second, picks, prompt: text, attempt: attempt + 1 },
                ..r
            }
            &&& !(reply is Parsed) && attempt >= 2 ==> u == run::after_review(
                RunView { stage: StageView::Done, ..r },
                picks,
                second,
                job,
            )
            &&& reply matches Reply::Parsed(fixes) ==> exists|v: RunView|
                {
                    &&& u == #[trigger] run::after_review(v, picks, second, job)
                    &&& v.translated == merge::fixed(job.segments, r.translated, picks, fixes).0
                    &&& v.batch == r.batch && v.known == r.known
                    &&& v.stats.reviewed == ask::plus(r.stats.reviewed, picks.len() as int)
                }
        }),
{
    if let Reply::Parsed(fixes) = reply {
        let (translated, n) = merge::fixed(job.segments, r.translated, picks, fixes);
        let v = RunView {
            stats: TranslateStats {
                reviewed: ask::plus(r.stats.reviewed, picks.len() as int),
                review_fixed: ask::plus(r.stats.review_fixed, n as int),
                ..r.stats
            },
            translated,
            stage: StageView::Done,
            ..r
        };
        assert(run::run_step(r, EventView::Items(reply), job) == run::after_review(
            v,
            picks,
            second,
            job,
        ));
    }
}

/// What is known of a film in one chunk is what the model says of it; of a film in more, the
/// glossaries are put together, and the summaries are kept, one for each chunk that has any.
pub proof fn law_chunks_are_put_together(
    t: ContextTaskView,
    c: ContextView,
    templates: Map<Seq<char>, Seq<char>>,
)
    ensures
        t.chunks.len() <= 1 ==> context::chunk_done(t, Some(c), templates).known == c
            && context::chunk_done(t, Some(c), templates).stage is Done,
        t.chunks.len() <= 1 ==> context::chunk_done(t, None, templates).known == t.known,
        context::with_chunk(t, c).known.glossary == types::merged_terms(
            t.known.glossary,
            c.glossary,
        ),
        spaces::all_white(c.summary) ==> context::with_chunk(t, c).partials == t.partials,
        !spaces::all_white(c.summary) ==> context::with_chunk(t, c).partials == t.partials.push(
            spaces::trim(c.summary),
        ),
{
    spaces::lemma_blank(c.summary);
}

/// When all chunks are summarised, one summary is what is known; several are counted together, to be
/// summarised themselves.
pub proof fn law_summaries_are_summarised(t: ContextTaskView)
    ensures
        ({
            let u = context::chunks_done(t);
            &&& u.known.glossary == t.known.glossary
            &&& t.partials.len() == 0 ==> u.stage is Done && u.known == t.known
            &&& t.partials.len() == 1 ==> u.stage is Done && u.known.summary == t.partials[0]
            &&& t.partials.len() > 1 ==> u.stage == (ContextStageView::JoinedTokens {
                joined: pieces::join(t.partials, "\n"@),
            })
        }),
{
}

/// The summary of the summaries takes their place, and its glossary goes before theirs; without one
/// the summaries stand one after the other.
pub proof fn law_the_last_summary_counts(t: ContextTaskView, c: ContextView)
    ensures
        context::joined_done(t, Some(c)).known.summary == c.summary,
        context::joined_done(t, Some(c)).known.glossary == types::merged_terms(
            c.glossary,
            t.known.glossary,
        ),
        context::joined_done(t, None).known.summary == pieces::join(t.partials, " "@),
        context::joined_done(t, None).known.glossary == t.known.glossary,
        context::joined_done(t, None).stage is Done && context::joined_done(t, Some(c)).stage is Done,
{
}

/// The summaries are summarised only if all of them fit into a chunk; otherwise they stand one after
/// the other.
pub proof fn law_long_summaries_are_joined(
    t: ContextTaskView,
    stats: TranslateStats,
    n: int,
    cfg: TranslateConfig,
    templates: Map<Seq<char>, Seq<char>>,
)
    requires
        t.stage is JoinedTokens,
    ensures
        ({
            let (u, after) = context::context_step(t, stats, EventView::Tokens(n), cfg, templates);
            let asked = prompts::summary_prompt(templates, t.stage->joined);
            &&& after == stats
            &&& n <= context::summary_budget(cfg) && asked is Some ==> u.stage
                == (ContextStageView::Tokens { prompt: asked.unwrap(), last: true }) && u.known
                == t.known
            &&& n > context::summary_budget(cfg) || asked is None ==> u == context::joined_done(
                t,
                None,
            )
        }),
{
}

/// What is asked for a batch: that its prompt be counted, and then that the model answer it, with the
/// seed and the target language of the settings.
pub proof fn law_a_batch_asks_for_its_answer(t: BatchTaskView, cfg: TranslateConfig)
    ensures
        match t.stage {
            BatchStageView::Tokens { prompt } => batch::batch_action(t, cfg) == ActionView::Count(
                prompt,
            ),
            BatchStageView::Reply { task } => batch::batch_action(t, cfg) == ActionView::Ask(
                attempt::attempt_request(task, cfg.seed, cfg.target_lang@),
            ),
            _ => batch::batch_action(t, cfg) is Finish,
        },
{
}

/// What is asked for a summary: that its prompt be counted, and then that the model answer it.
pub proof fn law_a_summary_asks_for_its_answer(t: ContextTaskView, cfg: TranslateConfig)
    ensures
        match t.stage {
            ContextStageView::Tokens { prompt, last } => context::context_action(t, cfg)
                == ActionView::Count(prompt),
            ContextStageView::JoinedTokens { joined } => context::context_action(t, cfg)
                == ActionView::Count(joined),
            ContextStageView::Reply { task, last } => context::context_action(t, cfg)
                == ActionView::Ask(attempt::summary_request(task, cfg.seed)),
            ContextStageView::Done => context::context_action(t, cfg) is Finish,
        },
{
}

/// A review is asked for with its prompt as it is, room for each text under review, and a seed that
/// no translation draws: that of a hundred attempts later.
pub proof fn law_a_review_asks_for_its_answer(
    picks: Seq<int>,
    text: Seq<char>,
    number: int,
    cfg: TranslateConfig,
)
    ensures
        ({
            let r = run::review_request(picks, text, number, cfg);
            &&& r.prompt == text
            &&& r.system == ask::REVIEW_SYSTEM@
            &&& r.array
            &&& r.seed == chat::drawn_seed(cfg.seed, number + 100) as u32
            &&& r.max_new == ask::items_room(
                cfg.translate_tokens_per_item as int,
                picks.len() as int,
            ) as u32
        }),
{
}

/// A run asks for what it is at.
pub proof fn law_a_run_asks_for_what_it_is_at(r: RunView, cfg: TranslateConfig)
    ensures
        match r.stage {
            StageView::Context(t) => run::run_action(r, cfg) == context::context_action(t, cfg),
            StageView::Batch(t) => run::run_action(r, cfg) == batch::batch_action(t, cfg),
            StageView::Review { second, picks, prompt, attempt } => run::run_action(r, cfg)
                == ActionView::Ask(run::review_request(picks, prompt, attempt, cfg)),
            StageView::Done => run::run_action(r, cfg) is Finish,
        },
{
}

/// A batch that is translated gets its texts from all the items that were found for it; one that is
/// lost keeps its own, and the next batch is begun.
pub proof fn law_a_run_follows_its_batch(
    r: RunView,
    t: BatchTaskView,
    stats: TranslateStats,
    job: Job,
)
    ensures
        ({
            let u = run::batch_went_on(r, t, stats, job);
            let rest = RunView { stats, stage: StageView::Done, ..r };
            &&& t.stage is Done ==> u == run::batch_found(rest, t.items, job)
            &&& t.stage is Lost ==> u == run::begin_batch(run::batch_lost(rest, job), job)
            &&& t.stage is Tokens || t.stage is Reply ==> u.stage == StageView::Batch(t)
                && u.translated == r.translated && u.batch == r.batch && u.known == r.known
                && u.stats == stats
        }),
{
}

/// A batch that is translated and not reviewed is followed by the next one; so is one whose second
/// review is over, and the texts of the script that it left are counted.
pub proof fn law_the_next_batch_follows(r: RunView, picks: Seq<int>, job: Job)
    ensures
        run::next_batch(r, job) == run::begin_batch(
            RunView { batch: r.batch + 1, stage: StageView::Done, ..r },
            job,
        ),
        exists|v: RunView|
            {
                &&& run::after_second_review(r, picks, job) == #[trigger] run::next_batch(v, job)
                &&& v.translated == r.translated && v.batch == r.batch && v.known == r.known
                &&& v.stats == (TranslateStats {
                    residual: ask::plus(
                        r.stats.residual,
                        merge::still_residual(
                            r.translated,
                            picks,
                            job.cfg.residual_script@,
                        ).len() as int,
                    ),
                    ..r.stats
                })
            },
{
    let left = merge::still_residual(r.translated, picks, job.cfg.residual_script@).len();
    let v = RunView {
        stats: TranslateStats { residual: ask::plus(r.stats.residual, left as int), ..r.stats },
        ..r
    };
    assert(run::after_second_review(r, picks, job) == run::next_batch(v, job));
}

/// The next batch begins with its prompt being counted, and is counted itself; where there is none,
/// the film is translated.
pub proof fn law_batches_begin_in_turn(r: RunView, job: Job)
    requires
        0 <= r.batch,
    ensures
        ({
            let u = run::begin_batch(r, job);
            &&& r.batch >= job.plan.len() ==> u.stage is Done && u.translated == r.translated
                && u.stats == r.stats
            &&& r.batch < job.plan.len() ==> {
                let t = batch::batch_start(
                    job.plan[r.batch].0 as usize,
                    job.plan[r.batch].1 as usize,
                    run::setting(r, job),
                );
                let begun = RunView {
                    stats: TranslateStats { batches: ask::plus(r.stats.batches, 1), ..r.stats },
                    ..r
                };
                &&& !(t.stage is Lost) ==> u == RunView { stage: StageView::Batch(t), ..begun }
                &&& t.stage is Lost ==> u == run::begin_batch(run::batch_lost(begun, job), job)
            }
        }),
{
}

/// The next chunk to be summarised is the first one from there on that there is a prompt for; with
/// none left, the chunks are done.
pub proof fn law_chunks_are_summarised_in_turn(
    t: ContextTaskView,
    templates: Map<Seq<char>, Seq<char>>,
    k: int,
)
    requires
        0 <= t.next <= k <= t.chunks.len(),
        forall|j: int|
            t.next <= j < k ==> prompts::summary_prompt(templates, #[trigger] t.chunks[j]) is None,
        k < t.chunks.len() ==> prompts::summary_prompt(templates, t.chunks[k]) is Some,
    ensures
        ({
            let u = context::next_chunk(t, templates);
            if k < t.chunks.len() {
                &&& u.next == k
                &&& u.stage == (ContextStageView::Tokens {
                    prompt: prompts::summary_prompt(templates, t.chunks[k]).unwrap(),
                    last: false,
                })
                &&& u.known == t.known && u.partials == t.partials && u.chunks == t.chunks
            } else {
                u == context::chunks_done(ContextTaskView { next: k, ..t })
            }
        }),
    decreases k - t.next,
{
    if t.next < k {
        assert(prompts::summary_prompt(templates, t.chunks[t.next]) is None);
        law_chunks_are_summarised_in_turn(
            ContextTaskView { next: t.next + 1, ..t },
            templates,
            k,
        );
    }
}

/// A prompt for a summary that is counted is asked with, and has the room that it leaves.
pub proof fn law_counted_summaries_are_asked_for(
    t: ContextTaskView,
    stats: TranslateStats,
    n: int,
    cfg: TranslateConfig,
    templates: Map<Seq<char>, Seq<char>>,
)
    requires
        t.stage is Tokens,
    ensures
        ({
            let (u, after) = context::context_step(t, stats, EventView::Tokens(n), cfg, templates);
            &&& u.stage == (ContextStageView::Reply {
                task: attempt::summary_start(
                    t.stage->Tokens_prompt,
                    ask::summary_room(cfg.n_ctx as int, n) as u32,
                    cfg.max_retries as int,
                ),
                last: t.stage->Tokens_last,
            })
            &&& u.known == t.known && u.partials == t.partials && u.next == t.next
            &&& after == stats
        }),
{
}

/// A summary that is found goes to its chunk, or to the summaries if it is theirs; where the attempts
/// are given up, it is left out.
pub proof fn law_answered_summaries_are_used(
    t: ContextTaskView,
    stats: TranslateStats,
    r: Reply<ContextView>,
    cfg: TranslateConfig,
    templates: Map<Seq<char>, Seq<char>>,
)
    requires
        t.stage is Reply,
    ensures
        ({
            let u = context::context_step(t, stats, EventView::Context(r), cfg, templates).0;
            let rest = ContextTaskView { stage: ContextStageView::Done, ..t };
            let last = t.stage->Reply_last;
            match attempt::summary_next(t.stage->Reply_task, r) {
                Outcome::Found(c) => u == (if last {
                    context::joined_done(rest, Some(c))
                } else {
                    context::chunk_done(rest, Some(c), templates)
                }),
                Outcome::GaveUp => u == (if last {
                    context::joined_done(rest, None)
                } else {
                    context::chunk_done(rest, None, templates)
                }),
                Outcome::Again(task) => u == ContextTaskView {
                    stage: ContextStageView::Reply { task, last },
                    ..t
                },
            }
        }),
{
}

/// After one of several chunks comes the next one, with what is known by then.
pub proof fn law_several_chunks_go_on(
    t: ContextTaskView,
    c: ContextView,
    templates: Map<Seq<char>, Seq<char>>,
)
    requires
        t.chunks.len() > 1,
    ensures
        context::chunk_done(t, Some(c), templates) == context::next_chunk(
            ContextTaskView { next: t.next + 1, ..context::with_chunk(t, c) },
            templates,
        ),
        context::chunk_done(t, None, templates) == context::next_chunk(
            ContextTaskView { next: t.next + 1, ..t },
            templates,
        ),
        context::with_chunk(t, c).chunks == t.chunks && context::with_chunk(t, c).next == t.next,
        t.known.summary.len() > 0 ==> context::with_chunk(t, c).known.summary == t.known.summary,
{
}

/// An event that is no answer to what was asked changes nothing.
pub proof fn law_other_events_change_nothing(r: RunView, event: EventView, job: Job)
    requires
        !(event is Items),
        r.stage is Review || r.stage is Done,
    ensures
        run::run_step(r, event, job) == r,
{
}

/// Subtitles under review go to the model as a JSON list in their order, each with its number as `i`,
/// its text as `s` and its translation as `t`.
pub proof fn law_pairs_are_listed(
    sources: Seq<SegmentView>,
    translated: Seq<SegmentView>,
    picks: Seq<int>,
    p: int,
)
    ensures
        ({
            let one = "{\"i\":"@ + number::decimal(sources[p].index as nat) + ",\"s\":"@
                + json::json_quoted(sources[p].text) + ",\"t\":"@ + json::json_quoted(
                translated[p].text,
            ) + "}"@;
            &&& prompts::pair_list(sources, translated, seq![p]) == "["@ + one + "]"@
            &&& picks.len() > 0 ==> prompts::pair_list(sources, translated, picks.push(p))
                == prompts::pair_list(sources, translated, picks).drop_last() + ","@ + one + "]"@
        }),
{
    reveal_strlit("]");
    let f = |p: int| prompts::pair_item(sources[p], translated[p]);
    let one = prompts::pair_item(sources[p], translated[p]);
    let front = picks.map_values(f);
    assert(seq![p].map_values(f) =~= seq![one]);
    assert(picks.push(p).map_values(f) =~= front.push(one));
    assert(front.push(one).drop_last() =~= front);
    if picks.len() > 0 {
        let x = "["@ + pieces::join(front, ","@);
        assert((x + "]"@).drop_last() =~= x);
        assert("["@ + (pieces::join(front, ","@) + ","@ + one) =~= x + ","@ + one);
    }
}

/// A film is translated in the batches that its settings plan, with the templates that there are.
pub proof fn law_a_job_is_planned_by_its_settings(
    cfg: TranslateConfig,
    templates: Map<Seq<char>, Seq<char>>,
    segments: Seq<SegmentView>,
)
    ensures
        ({
            let job = run::job_of(cfg, templates, segments);
            &&& job.cfg == cfg && job.templates == templates && job.segments == segments
            &&& job.plan == batches::planned(
                segments,
                cfg.batch_size as int,
                cfg.batch_chars as int,
            )
        }),
{
}

/// A run begins with what the film is about, if there are subtitles; it begins with the first batch
/// if nothing can be asked about that, and it is over at once without subtitles.
pub proof fn law_a_run_begins_with_the_film(counts: Seq<usize>, job: Job)
    ensures
        ({
            let r = run::run_start(counts, job);
            let t = context::context_start(job.segments, counts, job.cfg, job.templates);
            &&& job.segments.len() == 0 ==> r.stage is Done && r.translated.len() == 0
            &&& job.segments.len() > 0 && !(t.stage is Done) ==> r.stage == StageView::Context(t)
                && r.translated.len() == 0 && r.batch == 0
            &&& job.segments.len() > 0 && t.stage is Done ==> exists|v: RunView|
                {
                    &&& r == #[trigger] run::begin_batch(v, job)
                    &&& v.known == t.known && v.translated.len() == 0 && v.batch == 0
                }
        }),
{
    let t = context::context_start(job.segments, counts, job.cfg, job.templates);
    let v = RunView {
        stats: TranslateStats {
            segments: job.segments.len() as usize,
            summary_chunks: batches::chunk_plan(
                counts,
                context::summary_budget(job.cfg),
            ).len() as usize,
            ..run::no_stats()
        },
        known: t.known,
        translated: Seq::empty(),
        batch: 0,
        stage: StageView::Done,
    };
    if job.segments.len() > 0 && t.stage is Done {
        assert(run::run_start(counts, job) == run::begin_batch(v, job));
    }
}

/// The film is summarised in chunks of as many tokens as the settings allow, beginning with the first,
/// with nothing known yet.
pub proof fn law_a_film_is_summarised_in_chunks(
    list: Seq<SegmentView>,
    counts: Seq<usize>,
    cfg: TranslateConfig,
    templates: Map<Seq<char>, Seq<char>>,
)
    ensures
        context::summary_budget(cfg) == batches::chunk_budget(
            ask::budget(cfg.n_ctx as int),
            cfg.summary_chunk_tokens as int,
        ),
        exists|t: ContextTaskView|
            {
                &&& context::context_start(list, counts, cfg, templates)
                    == #[trigger] context::next_chunk(t, templates)
                &&& t.chunks == context::chunk_texts(
                    list,
                    batches::chunk_plan(counts, context::summary_budget(cfg)),
                )
                &&& t.next == 0 && t.partials.len() == 0
                &&& t.known.summary.len() == 0 && t.known.glossary.len() == 0
            },
{
    let t = ContextTaskView {
        chunks: context::chunk_texts(
            list,
            batches::chunk_plan(counts, context::summary_budget(cfg)),
        ),
        next: 0,
        known: context::nothing_known(),
        partials: Seq::empty(),
        stage: ContextStageView::Done,
    };
    assert(context::context_start(list, counts, cfg, templates) == context::next_chunk(
        t,
        templates,
    ));
}

/// What is known of the film goes with every batch: a run keeps it when the summaries are done.
pub proof fn law_a_run_keeps_what_is_known(
    r: RunView,
    t: ContextTaskView,
    stats: TranslateStats,
    job: Job,
)
    ensures
        ({
            let u = run::context_found(r, t, stats, job);
            &&& t.stage is Done ==> u == run::begin_batch(
                RunView { stats, known: t.known, stage: StageView::Done, ..r },
                job,
            )
            &&& !(t.stage is Done) ==> u.stage == StageView::Context(t) && u.translated
                == r.translated && u.batch == r.batch && u.stats == stats
        }),
{
}

} // verus!
