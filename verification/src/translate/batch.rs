//! Translating one batch.
//!
//! A batch whose prompt is too long is cut in half, and so are its halves, up to a depth; what is
//! left is asked for until a reply will do.

use vstd::prelude::*;

use crate::prompt::PromptStore;
use crate::translate::ask::{count_up, items_max_new, prompt_budget, Action, ActionView, Event, EventView};
use crate::translate::attempt::{AttemptTask, AttemptView, Outcome};
use crate::translate::prompts::{build_translate_prompt, TranslateConfig};
use crate::translate::{ask, attempt, context, prompts};
use crate::types;
use crate::types::{ContextView, GlobalContext, ItemView, SegmentView, SubtitleSegment, TranslateItem, TranslateStats};

verus! {

/// How often a batch may be cut in half.
pub const MAX_DEPTH: usize = 4;

/// A stretch of subtitles, and how often it was cut out of its batch.
#[derive(Clone, Copy, Debug, PartialEq, Eq, Structural)]
pub struct Piece {
    pub lo: usize,
    pub hi: usize,
    pub depth: usize,
}

/// What is being waited for.
pub enum BatchStage {
    /// The tokens of the prompt for the present piece.
    Tokens { prompt: String },
    /// The translation of the present piece.
    Reply { task: AttemptTask },
    /// Nothing: the batch is translated.
    Done,
    /// Nothing: the batch cannot be translated.
    Lost,
}

pub enum BatchStageView {
    Tokens { prompt: Seq<char> },
    Reply { task: AttemptView },
    Done,
    Lost,
}

impl View for BatchStage {
    type V = BatchStageView;

    open spec fn view(&self) -> BatchStageView {
        match *self {
            BatchStage::Tokens { prompt } => BatchStageView::Tokens { prompt: prompt@ },
            BatchStage::Reply { task } => BatchStageView::Reply { task: task@ },
            BatchStage::Done => BatchStageView::Done,
            BatchStage::Lost => BatchStageView::Lost,
        }
    }
}

/// Translating one batch.
pub struct BatchTask {
    /// The pieces that are still to be translated, the present one last.
    pub pieces: Vec<Piece>,
    /// The items of the pieces that are translated.
    pub items: Vec<TranslateItem>,
    pub stage: BatchStage,
}

#[verifier::ext_equal]
pub struct BatchTaskView {
    pub pieces: Seq<Piece>,
    pub items: Seq<ItemView>,
    pub stage: BatchStageView,
}

impl View for BatchTask {
    type V = BatchTaskView;

    open spec fn view(&self) -> BatchTaskView {
        BatchTaskView {
            pieces: self.pieces@,
            items: types::entries(self.items@),
            stage: self.stage@,
        }
    }
}

/// What a batch is translated with: the subtitles, those that go before the batch, and what is known
/// of the film.
pub struct BatchSetting {
    pub cfg: TranslateConfig,
    pub templates: Map<Seq<char>, Seq<char>>,
    pub known: ContextView,
    pub context: Seq<SegmentView>,
    pub segments: Seq<SegmentView>,
}

pub open spec fn piece_cues(w: BatchSetting, p: Piece) -> Seq<SegmentView> {
    w.segments.subrange(p.lo as int, p.hi as int)
}

/// Goes on with the present piece; without one the batch is done.
pub open spec fn next_piece(t: BatchTaskView, w: BatchSetting) -> BatchTaskView {
    if t.pieces.len() == 0 {
        BatchTaskView { stage: BatchStageView::Done, ..t }
    } else {
        match prompts::translate_prompt(
            w.cfg,
            w.templates,
            w.known,
            w.context,
            piece_cues(w, t.pieces.last()),
        ) {
            Some(prompt) => BatchTaskView { stage: BatchStageView::Tokens { prompt }, ..t },
            None => BatchTaskView { stage: BatchStageView::Lost, ..t },
        }
    }
}

/// The start: the whole batch is the only piece.
pub open spec fn batch_start(lo: usize, hi: usize, w: BatchSetting) -> BatchTaskView {
    next_piece(
        BatchTaskView {
            pieces: seq![Piece { lo, hi, depth: 0 }],
            items: Seq::empty(),
            stage: BatchStageView::Done,
        },
        w,
    )
}

pub open spec fn middle(p: Piece) -> int {
    p.lo + (p.hi - p.lo) / 2
}

/// The pieces with the present one cut in half; its first half is the present one then.
pub open spec fn halved(pieces: Seq<Piece>) -> Seq<Piece> {
    let p = pieces.last();
    let mid = middle(p) as usize;
    let depth = (p.depth + 1) as usize;
    pieces.drop_last().push(Piece { lo: mid, hi: p.hi, depth }).push(
        Piece { lo: p.lo, hi: mid, depth },
    )
}

/// The state and the counters after the tokens of a prompt are known.
pub open spec fn tokens_counted(
    t: BatchTaskView,
    stats: TranslateStats,
    prompt: Seq<char>,
    n: int,
    w: BatchSetting,
) -> (BatchTaskView, TranslateStats) {
    let p = t.pieces.last();
    if n > ask::budget(w.cfg.n_ctx as int) && p.hi - p.lo > 1 {
        if p.depth >= MAX_DEPTH {
            (BatchTaskView { stage: BatchStageView::Lost, ..t }, stats)
        } else {
            (
                next_piece(BatchTaskView { pieces: halved(t.pieces), ..t }, w),
                TranslateStats { splits: ask::plus(stats.splits, 1), ..stats },
            )
        }
    } else {
        (
            BatchTaskView {
                stage: BatchStageView::Reply {
                    task: attempt::attempt_start(
                        prompt,
                        ask::items_room(
                            w.cfg.translate_tokens_per_item as int,
                            p.hi - p.lo,
                        ) as u32,
                        w.cfg.max_retries as int,
                    ),
                },
                ..t
            },
            stats,
        )
    }
}

/// The counters after a reply: one more retry unless it did at once.
pub open spec fn reply_counted(
    stats: TranslateStats,
    batch: Seq<SegmentView>,
    r: ask::Reply<Seq<ItemView>>,
) -> TranslateStats {
    if attempt::attempt_missed(batch, r) {
        context::one_retry(stats)
    } else {
        stats
    }
}

/// The state and the counters after an event. One that is no answer to what was asked changes
/// nothing.
pub open spec fn batch_step(
    t: BatchTaskView,
    stats: TranslateStats,
    event: EventView,
    w: BatchSetting,
) -> (BatchTaskView, TranslateStats) {
    match (t.stage, event) {
        (BatchStageView::Tokens { prompt }, EventView::Tokens(n)) => tokens_counted(
            t,
            stats,
            prompt,
            n,
            w,
        ),
        (BatchStageView::Reply { task }, EventView::Items(r)) => {
            let batch = piece_cues(w, t.pieces.last());
            let after = reply_counted(stats, batch, r);
            match attempt::attempt_next(task, batch, r) {
                Outcome::Found(found) => (
                    next_piece(
                        BatchTaskView {
                            pieces: t.pieces.drop_last(),
                            items: t.items + found,
                            ..t
                        },
                        w,
                    ),
                    after,
                ),
                Outcome::Again(task) => (
                    BatchTaskView { stage: BatchStageView::Reply { task }, ..t },
                    after,
                ),
                Outcome::GaveUp => (BatchTaskView { stage: BatchStageView::Lost, ..t }, after),
            }
        },
        _ => (t, stats),
    }
}

/// What is to be done.
pub open spec fn batch_action(t: BatchTaskView, cfg: TranslateConfig) -> ActionView {
    match t.stage {
        BatchStageView::Tokens { prompt } => ActionView::Count(prompt),
        BatchStageView::Reply { task } => ActionView::Ask(
            attempt::attempt_request(task, cfg.seed, cfg.target_lang@),
        ),
        _ => ActionView::Finish,
    }
}

/// The pieces are stretches of `n` subtitles, none empty and none cut too often; while something is
/// being waited for, there is a piece.
pub open spec fn batch_valid(t: BatchTaskView, n: int) -> bool {
    &&& forall|k: int|
        0 <= k < t.pieces.len() ==> {
            let p = #[trigger] t.pieces[k];
            p.lo < p.hi <= n && p.depth <= MAX_DEPTH
        }
    &&& (t.stage is Tokens || t.stage is Reply) ==> t.pieces.len() > 0
    &&& t.stage matches BatchStageView::Reply { task } ==> 1 <= task.attempt <= task.attempts
}

proof fn lemma_next_piece(t: BatchTaskView, w: BatchSetting)
    requires
        forall|k: int|
            0 <= k < t.pieces.len() ==> {
                let p = #[trigger] t.pieces[k];
                p.lo < p.hi <= w.segments.len() && p.depth <= MAX_DEPTH
            },
    ensures
        batch_valid(next_piece(t, w), w.segments.len() as int),
{
}

/// The start makes sense.
pub proof fn lemma_batch_start(lo: usize, hi: usize, w: BatchSetting)
    requires
        lo < hi <= w.segments.len(),
    ensures
        batch_valid(batch_start(lo, hi, w), w.segments.len() as int),
        batch_start(lo, hi, w).stage is Tokens || batch_start(lo, hi, w).stage is Lost,
{
}

/// What makes sense goes on to make sense.
pub proof fn lemma_batch_step(
    t: BatchTaskView,
    stats: TranslateStats,
    event: EventView,
    w: BatchSetting,
)
    requires
        batch_valid(t, w.segments.len() as int),
    ensures
        batch_valid(batch_step(t, stats, event, w).0, w.segments.len() as int),
{
    match (t.stage, event) {
        (BatchStageView::Tokens { prompt }, EventView::Tokens(n)) => {
            let p = t.pieces[t.pieces.len() - 1];
            if p.hi - p.lo > 1 && p.depth < MAX_DEPTH {
                let cut = halved(t.pieces);
                assert forall|k: int| 0 <= k < cut.len() implies {
                    let q = #[trigger] cut[k];
                    q.lo < q.hi <= w.segments.len() && q.depth <= MAX_DEPTH
                } by {
                    if k < t.pieces.len() - 1 {
                        assert(cut[k] == t.pieces[k]);
                    }
                }
                lemma_next_piece(BatchTaskView { pieces: cut, ..t }, w);
            }
        },
        (BatchStageView::Reply { task }, EventView::Items(r)) => {
            let batch = piece_cues(w, t.pieces.last());
            if let Outcome::Found(found) = attempt::attempt_next(task, batch, r) {
                let rest = t.pieces.drop_last();
                assert forall|k: int| 0 <= k < rest.len() implies {
                    let q = #[trigger] rest[k];
                    q.lo < q.hi <= w.segments.len() && q.depth <= MAX_DEPTH
                } by {
                    assert(rest[k] == t.pieces[k]);
                }
                lemma_next_piece(
                    BatchTaskView { pieces: rest, items: t.items + found, ..t },
                    w,
                );
            }
        },
        _ => {},
    }
}

/// Appends the items of a reply.
fn append_items(items: &mut Vec<TranslateItem>, more: Vec<TranslateItem>)
    ensures
        types::entries(final(items)@) == types::entries(old(items)@) + types::entries(more@),
{
    let ghost start = types::entries(items@);
    let ghost all = types::entries(more@);
    assert(start + all.take(0) =~= start);
    for x in it: more
        invariant
            it.seq() == more@,
            all == types::entries(more@),
            types::entries(items@) == start + all.take(it.index() as int),
    {
        let ghost k = it.index() as int;
        let ghost before = types::entries(items@);
        items.push(x);
        assert(types::entries(items@) =~= before.push(all[k]));
        assert(start + all.take(k + 1) =~= (start + all.take(k)).push(all[k]));
    }
    assert(all.take(all.len() as int) =~= all);
}

/// What a batch is translated with.
pub struct BatchWork<'a> {
    pub cfg: &'a TranslateConfig,
    pub store: &'a PromptStore,
    pub known: &'a GlobalContext,
    pub context: &'a [SubtitleSegment],
    pub segments: &'a Vec<SubtitleSegment>,
}

impl<'a> View for BatchWork<'a> {
    type V = BatchSetting;

    open spec fn view(&self) -> BatchSetting {
        BatchSetting {
            cfg: *self.cfg,
            templates: self.store.templates@,
            known: self.known@,
            context: types::cues(self.context@),
            segments: types::cues(self.segments@),
        }
    }
}

impl BatchTask {
    /// Starts with the whole batch.
    pub fn start(lo: usize, hi: usize, work: &BatchWork) -> (r: Self)
        requires
            lo < hi <= work.segments@.len(),
        ensures
            r@ == batch_start(lo, hi, work@),
    {
        let pieces = vec![Piece { lo, hi, depth: 0 }];
        let items: Vec<TranslateItem> = Vec::new();
        assert(types::entries(items@) =~= Seq::<ItemView>::empty());
        assert(pieces@ =~= seq![Piece { lo, hi, depth: 0 }]);
        let t = BatchTask { pieces, items, stage: BatchStage::Done };
        t.go_on(work)
    }

    /// Goes on with the present piece.
    fn go_on(self, work: &BatchWork) -> (r: Self)
        requires
            batch_valid(self@, work.segments@.len() as int) || self.pieces@.len() == 0 || (
            self.pieces@.last().lo <= self.pieces@.last().hi <= work.segments@.len()),
        ensures
            r@ == next_piece(self@, work@),
    {
        let BatchTask { pieces, items, stage } = self;
        let n: usize = pieces.len();
        if n == 0 {
            return BatchTask { pieces, items, stage: BatchStage::Done };
        }
        let p: Piece = pieces[n - 1];
        let part = &work.segments.as_slice()[p.lo..p.hi];
        assert(types::cues(part@) =~= piece_cues(work@, p));
        match build_translate_prompt(work.cfg, work.store, work.known, work.context, part) {
            Some(prompt) => BatchTask { pieces, items, stage: BatchStage::Tokens { prompt } },
            None => BatchTask { pieces, items, stage: BatchStage::Lost },
        }
    }

    /// What is to be done.
    pub fn action(&self, cfg: &TranslateConfig) -> (r: Action)
        ensures
            r@ == batch_action(self@, *cfg),
    {
        match &self.stage {
            BatchStage::Tokens { prompt } => Action::Count(prompt.clone()),
            BatchStage::Reply { task } => Action::Ask(
                task.request(cfg.seed, cfg.target_lang.as_str()),
            ),
            BatchStage::Done => Action::Finish,
            BatchStage::Lost => Action::Finish,
        }
    }

    /// Takes the answer to what was to be done.
    pub fn step(self, event: Event, work: &BatchWork, stats: &mut TranslateStats) -> (r: Self)
        requires
            batch_valid(self@, work.segments@.len() as int),
        ensures
            (r@, *final(stats)) == batch_step(self@, *old(stats), event@, work@),
    {
        let ghost before = self@;
        let BatchTask { pieces, items, stage } = self;
        let mut pieces: Vec<Piece> = pieces;
        let mut items: Vec<TranslateItem> = items;
        match (stage, event) {
            (BatchStage::Tokens { prompt }, Event::Tokens(n)) => {
                let count: usize = pieces.len();
                let p: Piece = pieces[count - 1];
                if n > prompt_budget(work.cfg.n_ctx) && p.hi - p.lo > 1 {
                    if p.depth >= MAX_DEPTH {
                        return BatchTask { pieces, items, stage: BatchStage::Lost };
                    }
                    let mid: usize = p.lo + (p.hi - p.lo) / 2;
                    let depth: usize = p.depth + 1;
                    pieces.pop();
                    pieces.push(Piece { lo: mid, hi: p.hi, depth });
                    pieces.push(Piece { lo: p.lo, hi: mid, depth });
                    assert(pieces@ =~= halved(before.pieces));
                    stats.splits = count_up(stats.splits, 1);
                    let t = BatchTask { pieces, items, stage: BatchStage::Tokens { prompt } };
                    return t.go_on(work);
                }
                let max_new: u32 = items_max_new(work.cfg.translate_tokens_per_item, p.hi - p.lo);
                let task = AttemptTask::start(prompt, max_new, work.cfg.max_retries);
                BatchTask { pieces, items, stage: BatchStage::Reply { task } }
            },
            (BatchStage::Reply { task }, Event::Items(reply)) => {
                let count: usize = pieces.len();
                let p: Piece = pieces[count - 1];
                let part = &work.segments.as_slice()[p.lo..p.hi];
                assert(types::cues(part@) =~= piece_cues(work@, p));
                let missed: bool = match &reply {
                    ask::Reply::Parsed(v) => {
                        assert(types::entries(v@).len() == v@.len());
                        v.len() == 0 || crate::translate::copies::count_copies(part, v) > 0
                    },
                    _ => true,
                };
                if missed {
                    stats.retries = count_up(stats.retries, 1);
                }
                let stage = BatchStage::Done;
                match task.answer(part, reply) {
                    Outcome::Found(found) => {
                        pieces.pop();
                        append_items(&mut items, found);
                        assert(pieces@ =~= before.pieces.drop_last());
                        proof {
                            if pieces@.len() > 0 {
                                assert(pieces@.last() == before.pieces[pieces@.len() - 1]);
                            }
                        }
                        let t = BatchTask { pieces, items, stage };
                        t.go_on(work)
                    },
                    Outcome::Again(task) => BatchTask {
                        pieces,
                        items,
                        stage: BatchStage::Reply { task },
                    },
                    Outcome::GaveUp => BatchTask { pieces, items, stage: BatchStage::Lost },
                }
            },
            (stage, _) => BatchTask { pieces, items, stage },
        }
    }
}

/// The pieces, the present one first, follow each other from `lo` to `hi`.
pub open spec fn covers(pieces: Seq<Piece>, lo: int, hi: int) -> bool
    decreases pieces.len(),
{
    if pieces.len() == 0 {
        lo == hi
    } else {
        pieces.last().lo == lo && covers(pieces.drop_last(), pieces.last().hi as int, hi)
    }
}

/// No subtitle of a batch is left out and none is asked for twice: the pieces that are still to be
/// translated always follow each other to the end of the batch. Cutting the present one changes
/// nothing of what they cover, and translating it takes it off the front.
pub proof fn law_pieces_cover_the_batch(
    t: BatchTaskView,
    stats: TranslateStats,
    event: EventView,
    w: BatchSetting,
    lo: int,
    hi: int,
)
    requires
        batch_valid(t, w.segments.len() as int),
        covers(t.pieces, lo, hi),
    ensures
        ({
            let u = batch_step(t, stats, event, w).0;
            ||| covers(u.pieces, lo, hi)
            ||| {
                &&& t.pieces.len() > 0
                &&& u.pieces == t.pieces.drop_last()
                &&& covers(u.pieces, t.pieces.last().hi as int, hi)
                &&& u.items.take(t.items.len() as int) == t.items
            }
        }),
{
    if t.pieces.len() > 0 {
        let p = t.pieces[t.pieces.len() - 1];
        let cut = halved(t.pieces);
        if p.depth < MAX_DEPTH {
            let mid = middle(p) as usize;
            let depth = (p.depth + 1) as usize;
            let second = t.pieces.drop_last().push(Piece { lo: mid, hi: p.hi, depth });
            assert(second.drop_last() =~= t.pieces.drop_last());
            assert(cut.drop_last() =~= second);
            assert(covers(second, mid as int, hi));
            assert(covers(cut, lo, hi));
        }
        let u = batch_step(t, stats, event, w).0;
        if u.pieces == t.pieces.drop_last() {
            assert(u.items.take(t.items.len() as int) =~= t.items);
        }
    }
}

} // verus!
