//! Finding out what the whole film is about.
//!
//! The subtitles are summarised in chunks that fit the model's context; the summaries of the chunks
//! are then summarised once more. A failure never ends the work: what is missing is left out.

use vstd::prelude::*;

use crate::prompt::PromptStore;
use crate::text::chars;
use crate::text::pieces;
use crate::text::pieces::join_texts;
use crate::text::spaces;
use crate::text::spaces::trimmed;
use crate::translate::ask::{count_up, prompt_budget, summary_max_new, Action, ActionView, Event, EventView};
use crate::translate::attempt::{Outcome, SummaryTask, SummaryView};
use crate::translate::batches::plan_chunks;
use crate::translate::prompts::{build_summary_prompt, TranslateConfig};
use crate::translate::{ask, attempt, batches, prompts};
use crate::types;
use crate::types::{ContextView, GlobalContext, SegmentView, SubtitleSegment, TranslateStats};

verus! {

/// What is being waited for.
pub enum ContextStage {
    /// The tokens of a summary prompt; `last` for the summary of the summaries.
    Tokens { prompt: String, last: bool },
    /// A summary.
    Reply { task: SummaryTask, last: bool },
    /// The tokens of the summaries of the chunks.
    JoinedTokens { joined: String },
    /// Nothing: the context is known.
    Done,
}

pub enum ContextStageView {
    Tokens { prompt: Seq<char>, last: bool },
    Reply { task: SummaryView, last: bool },
    JoinedTokens { joined: Seq<char> },
    Done,
}

impl View for ContextStage {
    type V = ContextStageView;

    open spec fn view(&self) -> ContextStageView {
        match *self {
            ContextStage::Tokens { prompt, last } => ContextStageView::Tokens {
                prompt: prompt@,
                last,
            },
            ContextStage::Reply { task, last } => ContextStageView::Reply { task: task@, last },
            ContextStage::JoinedTokens { joined } => ContextStageView::JoinedTokens {
                joined: joined@,
            },
            ContextStage::Done => ContextStageView::Done,
        }
    }
}

/// Finding out what the whole film is about.
pub struct ContextTask {
    /// The texts of the chunks.
    pub chunks: Vec<String>,
    /// The chunk that is being summarised.
    pub next: usize,
    /// What is known so far.
    pub known: GlobalContext,
    /// The summaries of the chunks so far.
    pub partials: Vec<String>,
    pub stage: ContextStage,
}

#[verifier::ext_equal]
pub struct ContextTaskView {
    pub chunks: Seq<Seq<char>>,
    pub next: int,
    pub known: ContextView,
    pub partials: Seq<Seq<char>>,
    pub stage: ContextStageView,
}

impl View for ContextTask {
    type V = ContextTaskView;

    open spec fn view(&self) -> ContextTaskView {
        ContextTaskView {
            chunks: chars::views(self.chunks@),
            next: self.next as int,
            known: self.known@,
            partials: chars::views(self.partials@),
            stage: self.stage@,
        }
    }
}

pub open spec fn nothing_known() -> ContextView {
    ContextView { summary: Seq::empty(), glossary: Seq::empty() }
}

/// What is known with one more chunk summarised.
pub open spec fn with_chunk(t: ContextTaskView, c: ContextView) -> ContextTaskView {
    let line = spaces::trim(c.summary);
    ContextTaskView {
        known: types::merged_context(t.known, c),
        partials: if line.len() > 0 {
            t.partials.push(line)
        } else {
            t.partials
        },
        ..t
    }
}

/// All chunks are summarised: with more than one summary, their length decides what comes next.
pub open spec fn chunks_done(t: ContextTaskView) -> ContextTaskView {
    if t.partials.len() > 1 {
        ContextTaskView {
            stage: ContextStageView::JoinedTokens { joined: pieces::join(t.partials, "\n"@) },
            ..t
        }
    } else if t.partials.len() == 1 {
        ContextTaskView {
            known: ContextView { summary: t.partials[0], ..t.known },
            stage: ContextStageView::Done,
            ..t
        }
    } else {
        ContextTaskView { stage: ContextStageView::Done, ..t }
    }
}

/// Goes on with the next chunk whose prompt can be rendered.
pub open spec fn next_chunk(
    t: ContextTaskView,
    templates: Map<Seq<char>, Seq<char>>,
) -> ContextTaskView
    decreases t.chunks.len() - t.next,
{
    if t.next >= t.chunks.len() {
        chunks_done(t)
    } else {
        match prompts::summary_prompt(templates, t.chunks[t.next]) {
            Some(prompt) => ContextTaskView {
                stage: ContextStageView::Tokens { prompt, last: false },
                ..t
            },
            None => next_chunk(ContextTaskView { next: t.next + 1, ..t }, templates),
        }
    }
}

/// A chunk is summarised, or was not to be. The summary of the only chunk is what is known.
pub open spec fn chunk_done(
    t: ContextTaskView,
    r: Option<ContextView>,
    templates: Map<Seq<char>, Seq<char>>,
) -> ContextTaskView {
    if t.chunks.len() <= 1 {
        ContextTaskView {
            known: match r {
                Some(c) => c,
                None => t.known,
            },
            stage: ContextStageView::Done,
            ..t
        }
    } else {
        let u = match r {
            Some(c) => with_chunk(t, c),
            None => t,
        };
        next_chunk(ContextTaskView { next: t.next + 1, ..u }, templates)
    }
}

/// The summaries are summarised, or were not to be: then they stand one after the other.
pub open spec fn joined_done(t: ContextTaskView, r: Option<ContextView>) -> ContextTaskView {
    ContextTaskView {
        known: match r {
            Some(c) => ContextView {
                summary: c.summary,
                glossary: types::merged_terms(c.glossary, t.known.glossary),
            },
            None => ContextView { summary: pieces::join(t.partials, " "@), ..t.known },
        },
        stage: ContextStageView::Done,
        ..t
    }
}

pub open spec fn summary_done(
    t: ContextTaskView,
    r: Option<ContextView>,
    last: bool,
    templates: Map<Seq<char>, Seq<char>>,
) -> ContextTaskView {
    if last {
        joined_done(t, r)
    } else {
        chunk_done(t, r, templates)
    }
}

/// The texts of a list of subtitles, one per line.
pub open spec fn transcript(list: Seq<SegmentView>) -> Seq<char> {
    pieces::join(list.map_values(|s: SegmentView| s.text), "\n"@)
}

/// The texts of the chunks.
pub open spec fn chunk_texts(list: Seq<SegmentView>, plan: Seq<(int, int)>) -> Seq<Seq<char>> {
    plan.map_values(|r: (int, int)| transcript(list.subrange(r.0, r.1)))
}

pub open spec fn summary_budget(cfg: TranslateConfig) -> int {
    batches::chunk_budget(ask::budget(cfg.n_ctx as int), cfg.summary_chunk_tokens as int)
}

/// The start: the first chunk, given how many tokens each subtitle has.
pub open spec fn context_start(
    list: Seq<SegmentView>,
    counts: Seq<usize>,
    cfg: TranslateConfig,
    templates: Map<Seq<char>, Seq<char>>,
) -> ContextTaskView {
    next_chunk(
        ContextTaskView {
            chunks: chunk_texts(list, batches::chunk_plan(counts, summary_budget(cfg))),
            next: 0,
            known: nothing_known(),
            partials: Seq::empty(),
            stage: ContextStageView::Done,
        },
        templates,
    )
}

pub open spec fn one_retry(stats: TranslateStats) -> TranslateStats {
    TranslateStats { retries: ask::plus(stats.retries, 1), ..stats }
}

/// The same state, waiting for nothing.
pub open spec fn at_rest(t: ContextTaskView) -> ContextTaskView {
    ContextTaskView { stage: ContextStageView::Done, ..t }
}

/// The state and the counters after an event. One that is no answer to what was asked changes
/// nothing.
pub open spec fn context_step(
    t: ContextTaskView,
    stats: TranslateStats,
    event: EventView,
    cfg: TranslateConfig,
    templates: Map<Seq<char>, Seq<char>>,
) -> (ContextTaskView, TranslateStats) {
    match (t.stage, event) {
        (ContextStageView::Tokens { prompt, last }, EventView::Tokens(n)) => (
            ContextTaskView {
                stage: ContextStageView::Reply {
                    task: attempt::summary_start(
                        prompt,
                        ask::summary_room(cfg.n_ctx as int, n) as u32,
                        cfg.max_retries as int,
                    ),
                    last,
                },
                ..t
            },
            stats,
        ),
        (ContextStageView::Reply { task, last }, EventView::Context(r)) => match attempt::summary_next(
            task,
            r,
        ) {
            Outcome::Found(c) => (summary_done(at_rest(t), Some(c), last, templates), stats),
            Outcome::Again(task) => (
                ContextTaskView { stage: ContextStageView::Reply { task, last }, ..t },
                one_retry(stats),
            ),
            Outcome::GaveUp => (summary_done(at_rest(t), None, last, templates), one_retry(stats)),
        },
        (ContextStageView::JoinedTokens { joined }, EventView::Tokens(n)) => (
            if n <= summary_budget(cfg) {
                match prompts::summary_prompt(templates, joined) {
                    Some(prompt) => ContextTaskView {
                        stage: ContextStageView::Tokens { prompt, last: true },
                        ..t
                    },
                    None => joined_done(t, None),
                }
            } else {
                joined_done(t, None)
            },
            stats,
        ),
        _ => (t, stats),
    }
}

/// What is to be done.
pub open spec fn context_action(t: ContextTaskView, cfg: TranslateConfig) -> ActionView {
    match t.stage {
        ContextStageView::Tokens { prompt, last } => ActionView::Count(prompt),
        ContextStageView::Reply { task, last } => ActionView::Ask(
            attempt::summary_request(task, cfg.seed),
        ),
        ContextStageView::JoinedTokens { joined } => ActionView::Count(joined),
        ContextStageView::Done => ActionView::Finish,
    }
}

/// The tokens that a chunk may have.
fn budget_of(cfg: &TranslateConfig) -> (r: usize)
    ensures
        r == summary_budget(*cfg),
{
    let whole: usize = prompt_budget(cfg.n_ctx);
    let wanted: usize = if cfg.summary_chunk_tokens < 256 {
        256
    } else {
        cfg.summary_chunk_tokens
    };
    if whole < wanted {
        whole
    } else {
        wanted
    }
}

/// The texts of a list of subtitles, one per line.
fn transcript_of(list: &[SubtitleSegment]) -> (r: String)
    ensures
        r@ == transcript(types::cues(list@)),
{
    let mut texts: Vec<String> = Vec::new();
    let ghost want = types::cues(list@).map_values(|s: SegmentView| s.text);
    for i in 0..list.len()
        invariant
            want == types::cues(list@).map_values(|s: SegmentView| s.text),
            texts@.len() == i,
            forall|j: int| 0 <= j < i ==> #[trigger] texts@[j]@ == want[j],
    {
        texts.push(list[i].text.clone());
    }
    assert(chars::views(texts@) =~= want);
    join_texts(&texts, "\n")
}

impl ContextTask {
    /// Starts with the first chunk, given how many tokens each subtitle has.
    pub fn start(
        segments: &Vec<SubtitleSegment>,
        counts: &Vec<usize>,
        cfg: &TranslateConfig,
        store: &PromptStore,
        stats: &mut TranslateStats,
    ) -> (r: Self)
        requires
            segments@.len() == counts@.len(),
        ensures
            r@ == context_start(types::cues(segments@), counts@, *cfg, store.templates@),
            *final(stats) == (TranslateStats {
                summary_chunks: batches::chunk_plan(counts@, summary_budget(*cfg)).len() as usize,
                ..*old(stats)
            }),
    {
        let plan = plan_chunks(counts, budget_of(cfg));
        let ghost list = types::cues(segments@);
        let ghost want_plan = batches::chunk_plan(counts@, summary_budget(*cfg));
        let ghost want = chunk_texts(list, want_plan);
        proof {
            batches::lemma_runs_from(
                batches::token_weights(counts@),
                0,
                usize::MAX as int,
                summary_budget(*cfg),
            );
            batches::lemma_tiles(want_plan, 0, counts@.len() as int);
            assert(want_plan.len() == plan@.len());
        }
        let mut chunks: Vec<String> = Vec::new();
        for k in 0..plan.len()
            invariant
                list == types::cues(segments@),
                want_plan == batches::ranges(plan@),
                want == chunk_texts(list, want_plan),
                segments@.len() == counts@.len(),
                forall|k: int|
                    0 <= k < want_plan.len() ==> 0 <= (#[trigger] want_plan[k]).0 < want_plan[k].1
                        <= counts@.len(),
                chunks@.len() == k,
                forall|j: int| 0 <= j < k ==> #[trigger] chunks@[j]@ == want[j],
        {
            let (lo, hi) = plan[k];
            assert(want_plan[k as int] == (lo as int, hi as int));
            let part = &segments.as_slice()[lo..hi];
            assert(types::cues(part@) =~= list.subrange(lo as int, hi as int));
            chunks.push(transcript_of(part));
        }
        assert(chars::views(chunks@) =~= want);
        stats.summary_chunks = plan.len();
        let known = GlobalContext::default();
        let partials: Vec<String> = Vec::new();
        assert(known@.summary =~= Seq::<char>::empty());
        assert(known@.glossary =~= Seq::<types::TermView>::empty());
        assert(chars::views(partials@) =~= Seq::<Seq<char>>::empty());
        let t = ContextTask { chunks, next: 0, known, partials, stage: ContextStage::Done };
        t.go_on(store)
    }

    /// Goes on with the next chunk whose prompt can be rendered.
    fn go_on(self, store: &PromptStore) -> (r: Self)
        ensures
            r@ == next_chunk(self@, store.templates@),
    {
        let ContextTask { chunks, next, known, partials, stage } = self;
        let n: usize = chunks.len();
        let mut next: usize = next;
        let ghost first = self@;
        assert(first.chunks.len() == n);
        while next < n
            invariant
                n == chunks@.len(),
                first == self@,
                first.chunks == chars::views(chunks@),
                first.known == known@,
                first.partials == chars::views(partials@),
                first.stage == stage@,
                next_chunk(first, store.templates@) == next_chunk(
                    ContextTaskView { next: next as int, ..first },
                    store.templates@,
                ),
            decreases n - next,
        {
            if let Some(prompt) = build_summary_prompt(store, chunks[next].as_str()) {
                let stage = ContextStage::Tokens { prompt, last: false };
                return ContextTask { chunks, next, known, partials, stage };
            }
            next = next + 1;
        }
        assert(chars::views(partials@).len() == partials@.len());
        if partials.len() > 1 {
            let joined = join_texts(&partials, "\n");
            let stage = ContextStage::JoinedTokens { joined };
            ContextTask { chunks, next, known, partials, stage }
        } else if partials.len() == 1 {
            let known = GlobalContext { summary: partials[0].clone(), glossary: known.glossary };
            ContextTask { chunks, next, known, partials, stage: ContextStage::Done }
        } else {
            ContextTask { chunks, next, known, partials, stage: ContextStage::Done }
        }
    }

    /// What is to be done.
    pub fn action(&self, cfg: &TranslateConfig) -> (r: Action)
        ensures
            r@ == context_action(self@, *cfg),
    {
        match &self.stage {
            ContextStage::Tokens { prompt, last } => Action::Count(prompt.clone()),
            ContextStage::Reply { task, last } => Action::Ask(task.request(cfg.seed)),
            ContextStage::JoinedTokens { joined } => Action::Count(joined.clone()),
            ContextStage::Done => Action::Finish,
        }
    }

    fn summary_done(self, r: Option<GlobalContext>, last: bool, store: &PromptStore) -> (t: Self)
        requires
            !last ==> self.next < self.chunks@.len(),
        ensures
            t@ == summary_done(
                self@,
                match r {
                    Some(c) => Some(c@),
                    None => None,
                },
                last,
                store.templates@,
            ),
    {
        let ghost before = self@;
        assert(before.chunks.len() == self.chunks@.len());
        let ContextTask { chunks, next, known, partials, stage } = self;
        let mut known: GlobalContext = known;
        let mut partials: Vec<String> = partials;
        if last {
            let known = match r {
                Some(c) => {
                    let mut glossary = c.glossary;
                    types::add_terms(&mut glossary, known.glossary);
                    GlobalContext { summary: c.summary, glossary }
                },
                None => GlobalContext {
                    summary: join_texts(&partials, " "),
                    glossary: known.glossary,
                },
            };
            return ContextTask { chunks, next, known, partials, stage: ContextStage::Done };
        }
        if chunks.len() <= 1 {
            let known = match r {
                Some(c) => c,
                None => known,
            };
            return ContextTask { chunks, next, known, partials, stage: ContextStage::Done };
        }
        if let Some(c) = r {
            let line = trimmed(c.summary.as_str());
            if !line.as_str().is_empty() {
                partials.push(line);
                assert(chars::views(partials@) =~= before.partials.push(line@));
            }
            known.merge(c);
        }
        let t = ContextTask { chunks, next: next + 1, known, partials, stage };
        t.go_on(store)
    }

    /// Takes the answer to what was to be done.
    pub fn step(
        self,
        event: Event,
        cfg: &TranslateConfig,
        store: &PromptStore,
        stats: &mut TranslateStats,
    ) -> (r: Self)
        requires
            context_valid(self@),
        ensures
            (r@, *final(stats)) == context_step(
                self@,
                *old(stats),
                event@,
                *cfg,
                store.templates@,
            ),
    {
        assert(self@.chunks.len() == self.chunks@.len());
        let ContextTask { chunks, next, known, partials, stage } = self;
        match (stage, event) {
            (ContextStage::Tokens { prompt, last }, Event::Tokens(n)) => {
                let max_new: u32 = summary_max_new(cfg.n_ctx, n);
                let task = SummaryTask::start(prompt, max_new, cfg.max_retries);
                let stage = ContextStage::Reply { task, last };
                ContextTask { chunks, next, known, partials, stage }
            },
            (ContextStage::Reply { task, last }, Event::Context(reply)) => {
                match task.answer(reply) {
                    Outcome::Found(c) => {
                        let t = ContextTask {
                            chunks,
                            next,
                            known,
                            partials,
                            stage: ContextStage::Done,
                        };
                        t.summary_done(Some(c), last, store)
                    },
                    Outcome::Again(task) => {
                        stats.retries = count_up(stats.retries, 1);
                        let stage = ContextStage::Reply { task, last };
                        ContextTask { chunks, next, known, partials, stage }
                    },
                    Outcome::GaveUp => {
                        stats.retries = count_up(stats.retries, 1);
                        let t = ContextTask {
                            chunks,
                            next,
                            known,
                            partials,
                            stage: ContextStage::Done,
                        };
                        t.summary_done(None, last, store)
                    },
                }
            },
            (ContextStage::JoinedTokens { joined }, Event::Tokens(n)) => {
                if n <= budget_of(cfg) {
                    if let Some(prompt) = build_summary_prompt(store, joined.as_str()) {
                        let stage = ContextStage::Tokens { prompt, last: true };
                        return ContextTask { chunks, next, known, partials, stage };
                    }
                }
                let t = ContextTask {
                    chunks,
                    next,
                    known,
                    partials,
                    stage: ContextStage::Done,
                };
                t.summary_done(None, true, store)
            },
            (stage, _) => ContextTask { chunks, next, known, partials, stage },
        }
    }
}

proof fn lemma_next_chunk(t: ContextTaskView, templates: Map<Seq<char>, Seq<char>>)
    requires
        0 <= t.next,
    ensures
        context_valid(next_chunk(t, templates)),
    decreases t.chunks.len() - t.next,
{
    if t.next < t.chunks.len() && prompts::summary_prompt(templates, t.chunks[t.next]) is None {
        lemma_next_chunk(ContextTaskView { next: t.next + 1, ..t }, templates);
    }
}

/// The start makes sense.
pub proof fn lemma_context_start(
    list: Seq<SegmentView>,
    counts: Seq<usize>,
    cfg: TranslateConfig,
    templates: Map<Seq<char>, Seq<char>>,
)
    ensures
        context_valid(context_start(list, counts, cfg, templates)),
{
    lemma_next_chunk(
        ContextTaskView {
            chunks: chunk_texts(list, batches::chunk_plan(counts, summary_budget(cfg))),
            next: 0,
            known: nothing_known(),
            partials: Seq::empty(),
            stage: ContextStageView::Done,
        },
        templates,
    );
}

/// What makes sense goes on to make sense.
pub proof fn lemma_context_step(
    t: ContextTaskView,
    stats: TranslateStats,
    event: EventView,
    cfg: TranslateConfig,
    templates: Map<Seq<char>, Seq<char>>,
)
    requires
        context_valid(t),
    ensures
        context_valid(context_step(t, stats, event, cfg, templates).0),
{
    if let (ContextStageView::Reply { task, last }, EventView::Context(r)) = (t.stage, event) {
        let rest = at_rest(t);
        if !last {
            lemma_next_chunk(ContextTaskView { next: t.next + 1, ..rest }, templates);
            if let Outcome::Found(c) = attempt::summary_next(task, r) {
                lemma_next_chunk(
                    ContextTaskView { next: t.next + 1, ..with_chunk(rest, c) },
                    templates,
                );
            }
        }
    }
}

/// While a chunk is being summarised, there is such a chunk, and attempts are counted.
pub open spec fn context_valid(t: ContextTaskView) -> bool {
    match t.stage {
        ContextStageView::Tokens { prompt, last } => last || 0 <= t.next < t.chunks.len(),
        ContextStageView::Reply { task, last } => {
            &&& last || 0 <= t.next < t.chunks.len()
            &&& 1 <= task.attempt <= task.attempts
        },
        _ => true,
    }
}

} // verus!
