//! Asking again until a reply will do.

use vstd::prelude::*;
use vstd::string::StringExecFns;

use crate::llm::chat;
use crate::llm::chat::resample_seed;
use crate::translate::ask;
use crate::translate::ask::{
    ChatRequest, Reply, RequestView, HINT_ARRAY, HINT_COPY_END, HINT_COPY_START, HINT_OBJECT,
    SYSTEM_PROMPT,
};
use crate::translate::copies;
use crate::translate::copies::count_copies;
use crate::text::spaces;
use crate::types;
use crate::types::{ContextView, GlobalContext, ItemView, SegmentView, SubtitleSegment, TranslateItem};

verus! {

/// Asking for a summary.
pub struct SummaryTask {
    pub prompt: String,
    pub max_new: u32,
    /// How often to ask.
    pub attempts: usize,
    /// The number of the present attempt, from one on.
    pub attempt: usize,
    /// A reply did not hold a summary.
    pub hinted: bool,
}

pub struct SummaryView {
    pub prompt: Seq<char>,
    pub max_new: u32,
    pub attempts: int,
    pub attempt: int,
    pub hinted: bool,
}

impl View for SummaryTask {
    type V = SummaryView;

    open spec fn view(&self) -> SummaryView {
        SummaryView {
            prompt: self.prompt@,
            max_new: self.max_new,
            attempts: self.attempts as int,
            attempt: self.attempt as int,
            hinted: self.hinted,
        }
    }
}

/// There is neither a summary nor a glossary.
pub open spec fn nothing_said(c: ContextView) -> bool {
    spaces::trim(c.summary).len() == 0 && c.glossary.len() == 0
}

/// How often to ask: at least once.
pub open spec fn tries(max_retries: int) -> int {
    if max_retries < 1 {
        1
    } else {
        max_retries
    }
}

/// The first attempt at a summary.
pub open spec fn summary_start(prompt: Seq<char>, max_new: u32, max_retries: int) -> SummaryView {
    SummaryView { prompt, max_new, attempts: tries(max_retries), attempt: 1, hinted: false }
}

/// The request of an attempt at a summary.
pub open spec fn summary_request(t: SummaryView, seed: u32) -> RequestView {
    RequestView {
        system: SYSTEM_PROMPT@,
        prompt: if t.hinted {
            t.prompt + HINT_OBJECT@
        } else {
            t.prompt
        },
        seed: chat::drawn_seed(seed, t.attempt) as u32,
        max_new: t.max_new,
        array: false,
    }
}

/// What a reply to a request leads to.
pub enum Outcome<T, A> {
    /// The reply will do.
    Found(T),
    /// Ask again.
    Again(A),
    /// No attempt is left, and there is nothing to show.
    GaveUp,
}

/// What a reply to an attempt at a summary leads to: a reply with a summary or a glossary will do.
pub open spec fn summary_next(t: SummaryView, r: Reply<ContextView>) -> Outcome<
    ContextView,
    SummaryView,
> {
    let again = SummaryView { attempt: t.attempt + 1, hinted: t.hinted || !(r is Failed), ..t };
    match r {
        Reply::Parsed(c) => if !nothing_said(c) {
            Outcome::Found(c)
        } else if t.attempt < t.attempts {
            Outcome::Again(again)
        } else {
            Outcome::GaveUp
        },
        _ => if t.attempt < t.attempts {
            Outcome::Again(again)
        } else {
            Outcome::GaveUp
        },
    }
}

pub open spec fn summary_outcome(o: Outcome<GlobalContext, SummaryTask>) -> Outcome<
    ContextView,
    SummaryView,
> {
    match o {
        Outcome::Found(c) => Outcome::Found(c@),
        Outcome::Again(t) => Outcome::Again(t@),
        Outcome::GaveUp => Outcome::GaveUp,
    }
}

/// How often to ask: at least once.
pub fn tries_of(max_retries: usize) -> (r: usize)
    ensures
        r == tries(max_retries as int),
{
    if max_retries < 1 {
        1
    } else {
        max_retries
    }
}

impl SummaryTask {
    /// The first attempt at a summary.
    pub fn start(prompt: String, max_new: u32, max_retries: usize) -> (r: Self)
        ensures
            r@ == summary_start(prompt@, max_new, max_retries as int),
    {
        SummaryTask {
            prompt,
            max_new,
            attempts: tries_of(max_retries),
            attempt: 1,
            hinted: false,
        }
    }

    /// The request of this attempt.
    pub fn request(&self, seed: u32) -> (r: ChatRequest)
        ensures
            r@ == summary_request(self@, seed),
    {
        let mut prompt = self.prompt.clone();
        if self.hinted {
            prompt.append(HINT_OBJECT);
        }
        ChatRequest {
            system: SYSTEM_PROMPT.to_string(),
            prompt,
            seed: resample_seed(seed, self.attempt),
            max_new: self.max_new,
            array: false,
        }
    }

    /// What a reply to this attempt leads to.
    pub fn answer(self, reply: Reply<GlobalContext>) -> (r: Outcome<GlobalContext, SummaryTask>)
        ensures
            summary_outcome(r) == summary_next(self@, ask::context_reply(reply)),
    {
        let read: bool = match &reply {
            Reply::Failed => false,
            _ => true,
        };
        if let Reply::Parsed(c) = reply {
            if !c.says_nothing() {
                return Outcome::Found(c);
            }
        }
        if self.attempt < self.attempts {
            Outcome::Again(
                SummaryTask {
                    prompt: self.prompt,
                    max_new: self.max_new,
                    attempts: self.attempts,
                    attempt: self.attempt + 1,
                    hinted: self.hinted || read,
                },
            )
        } else {
            Outcome::GaveUp
        }
    }
}

/// What the replies to successive attempts at a summary lead to, as far as they are needed.
pub open spec fn summary_run(t: SummaryView, replies: Seq<Reply<ContextView>>) -> Outcome<
    ContextView,
    SummaryView,
>
    decreases replies.len(),
{
    if replies.len() == 0 {
        Outcome::Again(t)
    } else {
        match summary_next(t, replies[0]) {
            Outcome::Again(u) => summary_run(u, replies.drop_first()),
            done => done,
        }
    }
}

/// The reply holds a summary or a glossary.
pub open spec fn summary_found(r: Reply<ContextView>) -> bool {
    r is Parsed && !nothing_said(r->Parsed_0)
}

/// With a reply to each attempt, the first reply that holds a summary or a glossary is taken; an
/// empty one never is. Only if there is none are the attempts given up.
pub proof fn law_first_summary_wins(t: SummaryView, replies: Seq<Reply<ContextView>>)
    requires
        1 <= t.attempt <= t.attempts,
        replies.len() == t.attempts - t.attempt + 1,
    ensures
        match summary_run(t, replies) {
            Outcome::Found(c) => exists|k: int|
                {
                    &&& 0 <= k < replies.len()
                    &&& #[trigger] replies[k] == Reply::Parsed(c)
                    &&& !nothing_said(c)
                    &&& forall|j: int| 0 <= j < k ==> !summary_found(#[trigger] replies[j])
                },
            Outcome::Again(_) => false,
            Outcome::GaveUp => forall|j: int|
                0 <= j < replies.len() ==> !summary_found(#[trigger] replies[j]),
        },
    decreases replies.len(),
{
    match summary_next(t, replies[0]) {
        Outcome::Again(u) => {
            let rest = replies.drop_first();
            law_first_summary_wins(u, rest);
            assert(!summary_found(replies[0]));
            assert forall|j: int| 1 <= j < replies.len() implies replies[j] == rest[j - 1] by {}
            match summary_run(u, rest) {
                Outcome::Found(c) => {
                    let k = choose|k: int|
                        {
                            &&& 0 <= k < rest.len()
                            &&& #[trigger] rest[k] == Reply::Parsed(c)
                            &&& !nothing_said(c)
                            &&& forall|j: int| 0 <= j < k ==> !summary_found(#[trigger] rest[j])
                        };
                    assert(replies[k + 1] == Reply::Parsed(c));
                    assert forall|j: int| 0 <= j < k + 1 implies !summary_found(
                        #[trigger] replies[j],
                    ) by {
                        if j > 0 {
                            assert(replies[j] == rest[j - 1]);
                        }
                    }
                },
                Outcome::Again(_) => {},
                Outcome::GaveUp => {
                    assert forall|j: int| 0 <= j < replies.len() implies !summary_found(
                        #[trigger] replies[j],
                    ) by {
                        if j > 0 {
                            assert(replies[j] == rest[j - 1]);
                        }
                    }
                },
            }
        },
        Outcome::Found(c) => {
            assert(replies[0] == Reply::Parsed(c));
        },
        Outcome::GaveUp => {},
    }
}

/// What the prompt of an attempt at a translation adds.
#[derive(Clone, Copy, Debug, PartialEq, Eq, Structural)]
pub enum Hint {
    /// Nothing.
    Plain,
    /// That the last reply was no JSON array.
    Array,
    /// That the last reply handed the source back.
    Copy,
}

/// Asking for the translation of a batch.
pub struct AttemptTask {
    pub prompt: String,
    pub max_new: u32,
    pub attempts: usize,
    pub attempt: usize,
    pub hint: Hint,
    /// The reply with the fewest copies of the source so far, and how many they are.
    pub best: Option<(Vec<TranslateItem>, usize)>,
}

pub struct AttemptView {
    pub prompt: Seq<char>,
    pub max_new: u32,
    pub attempts: int,
    pub attempt: int,
    pub hint: Hint,
    pub best: Option<(Seq<ItemView>, int)>,
}

pub open spec fn best_view(best: Option<(Vec<TranslateItem>, usize)>) -> Option<
    (Seq<ItemView>, int),
> {
    match best {
        Some((v, n)) => Some((types::entries(v@), n as int)),
        None => None,
    }
}

impl View for AttemptTask {
    type V = AttemptView;

    open spec fn view(&self) -> AttemptView {
        AttemptView {
            prompt: self.prompt@,
            max_new: self.max_new,
            attempts: self.attempts as int,
            attempt: self.attempt as int,
            hint: self.hint,
            best: best_view(self.best),
        }
    }
}

/// The first attempt at a batch.
pub open spec fn attempt_start(prompt: Seq<char>, max_new: u32, max_retries: int) -> AttemptView {
    AttemptView {
        prompt,
        max_new,
        attempts: tries(max_retries),
        attempt: 1,
        hint: Hint::Plain,
        best: None,
    }
}

pub open spec fn hint_text(hint: Hint, target_lang: Seq<char>) -> Seq<char> {
    match hint {
        Hint::Plain => Seq::empty(),
        Hint::Array => HINT_ARRAY@,
        Hint::Copy => HINT_COPY_START@ + target_lang + HINT_COPY_END@,
    }
}

/// The request of an attempt at a batch.
pub open spec fn attempt_request(t: AttemptView, seed: u32, target_lang: Seq<char>) -> RequestView {
    RequestView {
        system: SYSTEM_PROMPT@,
        prompt: t.prompt + hint_text(t.hint, target_lang),
        seed: chat::drawn_seed(seed, t.attempt) as u32,
        max_new: t.max_new,
        array: true,
    }
}

/// The better of the best reply so far and a new one: the one with fewer copies, the earlier one
/// if they have as many.
pub open spec fn better(
    best: Option<(Seq<ItemView>, int)>,
    items: Seq<ItemView>,
    n: int,
) -> Option<(Seq<ItemView>, int)> {
    match best {
        Some((_, m)) => if n < m {
            Some((items, n))
        } else {
            best
        },
        None => Some((items, n)),
    }
}

/// The next attempt, or, if there is none, the best reply.
pub open spec fn attempt_again(t: AttemptView) -> Outcome<Seq<ItemView>, AttemptView> {
    if t.attempt < t.attempts {
        Outcome::Again(AttemptView { attempt: t.attempt + 1, ..t })
    } else {
        match t.best {
            Some((items, _)) => Outcome::Found(items),
            None => Outcome::GaveUp,
        }
    }
}

/// What a reply to an attempt at a batch leads to. A reply without copies of the source will do at
/// once; when no attempt is left, the one with the fewest copies has to.
pub open spec fn attempt_next(
    t: AttemptView,
    batch: Seq<SegmentView>,
    r: Reply<Seq<ItemView>>,
) -> Outcome<Seq<ItemView>, AttemptView> {
    match r {
        Reply::Failed => attempt_again(t),
        Reply::Unparsable => attempt_again(AttemptView { hint: Hint::Array, ..t }),
        Reply::Parsed(items) => {
            let n = copies::copies(batch, items) as int;
            if items.len() == 0 {
                attempt_again(AttemptView { hint: Hint::Array, ..t })
            } else if n == 0 {
                Outcome::Found(items)
            } else {
                attempt_again(
                    AttemptView { hint: Hint::Copy, best: better(t.best, items, n), ..t },
                )
            }
        },
    }
}

/// The reply makes another attempt or the end of the attempts necessary.
pub open spec fn attempt_missed(batch: Seq<SegmentView>, r: Reply<Seq<ItemView>>) -> bool {
    match r {
        Reply::Parsed(items) => items.len() == 0 || copies::copies(batch, items) > 0,
        _ => true,
    }
}

pub open spec fn attempt_outcome(o: Outcome<Vec<TranslateItem>, AttemptTask>) -> Outcome<
    Seq<ItemView>,
    AttemptView,
> {
    match o {
        Outcome::Found(v) => Outcome::Found(types::entries(v@)),
        Outcome::Again(t) => Outcome::Again(t@),
        Outcome::GaveUp => Outcome::GaveUp,
    }
}

impl AttemptTask {
    /// The first attempt at a batch.
    pub fn start(prompt: String, max_new: u32, max_retries: usize) -> (r: Self)
        ensures
            r@ == attempt_start(prompt@, max_new, max_retries as int),
    {
        AttemptTask {
            prompt,
            max_new,
            attempts: tries_of(max_retries),
            attempt: 1,
            hint: Hint::Plain,
            best: None,
        }
    }

    /// The request of this attempt.
    pub fn request(&self, seed: u32, target_lang: &str) -> (r: ChatRequest)
        ensures
            r@ == attempt_request(self@, seed, target_lang@),
    {
        let mut prompt = self.prompt.clone();
        match self.hint {
            Hint::Plain => {
                assert(prompt@ + Seq::<char>::empty() =~= prompt@);
            },
            Hint::Array => {
                prompt.append(HINT_ARRAY);
            },
            Hint::Copy => {
                let mut hint = HINT_COPY_START.to_string();
                hint.append(target_lang);
                hint.append(HINT_COPY_END);
                prompt.append(hint.as_str());
            },
        }
        ChatRequest {
            system: SYSTEM_PROMPT.to_string(),
            prompt,
            seed: resample_seed(seed, self.attempt),
            max_new: self.max_new,
            array: true,
        }
    }

    /// The next attempt, or, if there is none, the best reply.
    fn again(self) -> (r: Outcome<Vec<TranslateItem>, AttemptTask>)
        ensures
            attempt_outcome(r) == attempt_again(self@),
    {
        if self.attempt < self.attempts {
            Outcome::Again(
                AttemptTask {
                    prompt: self.prompt,
                    max_new: self.max_new,
                    attempts: self.attempts,
                    attempt: self.attempt + 1,
                    hint: self.hint,
                    best: self.best,
                },
            )
        } else {
            match self.best {
                Some((items, _)) => Outcome::Found(items),
                None => Outcome::GaveUp,
            }
        }
    }

    /// What a reply to this attempt leads to.
    pub fn answer(self, batch: &[SubtitleSegment], reply: Reply<Vec<TranslateItem>>) -> (r: Outcome<
        Vec<TranslateItem>,
        AttemptTask,
    >)
        ensures
            attempt_outcome(r) == attempt_next(
                self@,
                types::cues(batch@),
                ask::items_reply(reply),
            ),
    {
        let AttemptTask { prompt, max_new, attempts, attempt, hint, best } = self;
        let items = match reply {
            Reply::Failed => {
                return AttemptTask { prompt, max_new, attempts, attempt, hint, best }.again();
            },
            Reply::Unparsable => {
                let hint = Hint::Array;
                return AttemptTask { prompt, max_new, attempts, attempt, hint, best }.again();
            },
            Reply::Parsed(items) => items,
        };
        assert(types::entries(items@).len() == items@.len());
        if items.len() == 0 {
            let hint = Hint::Array;
            return AttemptTask { prompt, max_new, attempts, attempt, hint, best }.again();
        }
        let n: usize = count_copies(batch, &items);
        if n == 0 {
            return Outcome::Found(items);
        }
        let hint = Hint::Copy;
        let best = match best {
            Some((held, m)) => if n < m {
                Some((items, n))
            } else {
                Some((held, m))
            },
            None => Some((items, n)),
        };
        AttemptTask { prompt, max_new, attempts, attempt, hint, best }.again()
    }
}

/// What the replies to successive attempts at a batch lead to, as far as they are needed.
pub open spec fn attempt_run(
    t: AttemptView,
    batch: Seq<SegmentView>,
    replies: Seq<Reply<Seq<ItemView>>>,
) -> Outcome<Seq<ItemView>, AttemptView>
    decreases replies.len(),
{
    if replies.len() == 0 {
        Outcome::Again(t)
    } else {
        match attempt_next(t, batch, replies[0]) {
            Outcome::Again(u) => attempt_run(u, batch, replies.drop_first()),
            done => done,
        }
    }
}

/// The reply holds items.
pub open spec fn has_items(r: Reply<Seq<ItemView>>) -> bool {
    r is Parsed && r->Parsed_0.len() > 0
}

/// The copies of the source in a reply with items.
pub open spec fn copies_in(batch: Seq<SegmentView>, r: Reply<Seq<ItemView>>) -> nat {
    copies::copies(batch, r->Parsed_0)
}

/// With a reply to each attempt, what is taken is the first reply without copies of the source, or
/// else the first of those with the fewest; the attempts are given up only if no reply held an
/// item.
pub proof fn law_best_translation_wins(
    t: AttemptView,
    batch: Seq<SegmentView>,
    replies: Seq<Reply<Seq<ItemView>>>,
)
    requires
        1 <= t.attempt <= t.attempts,
        replies.len() == t.attempts - t.attempt + 1,
        t.best is None,
    ensures
        match attempt_run(t, batch, replies) {
            Outcome::Found(items) => exists|k: int|
                {
                    &&& 0 <= k < replies.len()
                    &&& #[trigger] replies[k] == Reply::Parsed(items)
                    &&& items.len() > 0
                    &&& forall|j: int|
                        0 <= j < k && has_items(#[trigger] replies[j]) ==> copies_in(
                            batch,
                            replies[j],
                        ) > copies_in(batch, replies[k])
                    &&& copies_in(batch, replies[k]) > 0 ==> forall|j: int|
                        0 <= j < replies.len() && has_items(#[trigger] replies[j]) ==> copies_in(
                            batch,
                            replies[j],
                        ) >= copies_in(batch, replies[k])
                },
            Outcome::Again(_) => false,
            Outcome::GaveUp => forall|j: int|
                0 <= j < replies.len() ==> !has_items(#[trigger] replies[j]),
        },
{
    assert(replies.skip(0) =~= replies);
    lemma_attempt_run(t, batch, replies, replies, 0);
}

/// The best of the first `n` replies stands in `best`.
spec fn best_of(
    best: Option<(Seq<ItemView>, int)>,
    batch: Seq<SegmentView>,
    all: Seq<Reply<Seq<ItemView>>>,
    n: int,
) -> bool {
    match best {
        Some((items, c)) => exists|k: int|
            {
                &&& 0 <= k < n
                &&& #[trigger] all[k] == Reply::Parsed(items)
                &&& items.len() > 0
                &&& c == copies_in(batch, all[k])
                &&& c > 0
                &&& forall|j: int|
                    0 <= j < k && has_items(#[trigger] all[j]) ==> copies_in(batch, all[j]) > c
                &&& forall|j: int|
                    0 <= j < n && has_items(#[trigger] all[j]) ==> copies_in(batch, all[j]) >= c
            },
        None => forall|j: int| 0 <= j < n ==> !has_items(#[trigger] all[j]),
    }
}

proof fn lemma_attempt_run(
    t: AttemptView,
    batch: Seq<SegmentView>,
    replies: Seq<Reply<Seq<ItemView>>>,
    all: Seq<Reply<Seq<ItemView>>>,
    n: int,
)
    requires
        1 <= t.attempt <= t.attempts,
        replies.len() == t.attempts - t.attempt + 1,
        0 <= n <= all.len(),
        replies == all.skip(n),
        best_of(t.best, batch, all, n),
    ensures
        match attempt_run(t, batch, replies) {
            Outcome::Found(items) => exists|k: int|
                {
                    &&& 0 <= k < all.len()
                    &&& #[trigger] all[k] == Reply::Parsed(items)
                    &&& items.len() > 0
                    &&& forall|j: int|
                        0 <= j < k && has_items(#[trigger] all[j]) ==> copies_in(batch, all[j])
                            > copies_in(batch, all[k])
                    &&& copies_in(batch, all[k]) > 0 ==> forall|j: int|
                        0 <= j < all.len() && has_items(#[trigger] all[j]) ==> copies_in(
                            batch,
                            all[j],
                        ) >= copies_in(batch, all[k])
                },
            Outcome::Again(_) => false,
            Outcome::GaveUp => forall|j: int|
                0 <= j < all.len() ==> !has_items(#[trigger] all[j]),
        },
    decreases replies.len(),
{
    let r = replies[0];
    assert(r == all[n]);
    let c = copies_in(batch, r) as int;
    let best = if has_items(r) && c > 0 {
        better(t.best, r->Parsed_0, c)
    } else {
        t.best
    };
    if has_items(r) && c == 0 {
        assert(attempt_run(t, batch, replies) == Outcome::<Seq<ItemView>, AttemptView>::Found(
            r->Parsed_0,
        ));
        assert(all[n] == Reply::Parsed(r->Parsed_0));
        assert forall|j: int| 0 <= j < n && has_items(#[trigger] all[j]) implies copies_in(
            batch,
            all[j],
        ) > copies_in(batch, all[n]) by {
            match t.best {
                Some(_) => {},
                None => {},
            }
        }
    } else {
        assert(best_of(best, batch, all, n + 1)) by {
            match best {
                Some((items, m)) => {
                    if t.best is Some && t.best == best {
                        let k = choose|k: int|
                            {
                                &&& 0 <= k < n
                                &&& #[trigger] all[k] == Reply::Parsed(items)
                                &&& items.len() > 0
                                &&& m == copies_in(batch, all[k])
                                &&& m > 0
                                &&& forall|j: int|
                                    0 <= j < k && has_items(#[trigger] all[j]) ==> copies_in(
                                        batch,
                                        all[j],
                                    ) > m
                                &&& forall|j: int|
                                    0 <= j < n && has_items(#[trigger] all[j]) ==> copies_in(
                                        batch,
                                        all[j],
                                    ) >= m
                            };
                        assert(all[k] == Reply::Parsed(items));
                    } else {
                        assert(all[n] == Reply::Parsed(items));
                    }
                },
                None => {},
            }
        }
        if t.attempt < t.attempts {
            let hint = match r {
                Reply::Failed => t.hint,
                Reply::Unparsable => Hint::Array,
                Reply::Parsed(items) => if items.len() == 0 {
                    Hint::Array
                } else {
                    Hint::Copy
                },
            };
            let u = AttemptView { attempt: t.attempt + 1, hint, best, ..t };
            assert(attempt_next(t, batch, r) == Outcome::<Seq<ItemView>, AttemptView>::Again(u));
            assert(replies.drop_first() =~= all.skip(n + 1));
            lemma_attempt_run(u, batch, replies.drop_first(), all, n + 1);
        }
    }
}

} // verus!
