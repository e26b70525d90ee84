//! What a request holds, how much room there is, and what a reply leads to.

use vstd::prelude::*;

use crate::llm::chat;
use crate::text::spaces;
use crate::translate::ask::Reply;
use crate::translate::attempt::{AttemptView, Hint, Outcome, SummaryView};
use crate::translate::{ask, attempt, batches, context, copies};
use crate::types::{ContextView, ItemView, SegmentView};

verus! {

/// A prompt may have all of the context but 2048 tokens, and 512 tokens whatever the context is.
pub proof fn law_prompts_leave_room(n_ctx: int)
    ensures
        ask::budget(n_ctx) >= 512,
        n_ctx >= 2560 ==> ask::budget(n_ctx) + 2048 == n_ctx,
        n_ctx < 2560 ==> ask::budget(n_ctx) == 512,
{
}

/// The reply with a summary may have what the prompt leaves of the context, 64 tokens apart, but no
/// fewer than 256 and no more than 2048 tokens.
pub proof fn law_summaries_have_room(n_ctx: int, prompt_tokens: int)
    ensures
        256 <= ask::summary_room(n_ctx, prompt_tokens) <= 2048,
        prompt_tokens + 64 + 256 <= n_ctx <= prompt_tokens + 64 + 2048 ==> prompt_tokens + 64
            + ask::summary_room(n_ctx, prompt_tokens) == n_ctx,
        n_ctx > prompt_tokens + 64 + 2048 ==> ask::summary_room(n_ctx, prompt_tokens) == 2048,
        n_ctx < prompt_tokens + 64 + 256 ==> ask::summary_room(n_ctx, prompt_tokens) == 256,
{
}

/// The reply with a list of texts may have so many tokens for each subtitle and 256 more, but no
/// fewer than 512 and no more than 6144.
pub proof fn law_translations_have_room(tokens_per_item: int, count: int)
    ensures
        512 <= ask::items_room(tokens_per_item, count) <= 6144,
        512 <= tokens_per_item * count + 256 <= 6144 ==> ask::items_room(tokens_per_item, count)
            == tokens_per_item * count + 256,
        tokens_per_item * count + 256 > 6144 ==> ask::items_room(tokens_per_item, count) == 6144,
        tokens_per_item * count + 256 < 512 ==> ask::items_room(tokens_per_item, count) == 512,
{
}

/// A chunk of the film has no more tokens than is asked for and than a prompt may have, but where
/// fewer than 256 are asked for, 256 will do; it has as many as that allows.
pub proof fn law_chunks_keep_the_budget(prompt_budget: int, wanted: int)
    ensures
        ({
            let b = batches::chunk_budget(prompt_budget, wanted);
            &&& b <= prompt_budget
            &&& wanted >= 256 ==> b <= wanted
            &&& wanted < 256 ==> b <= 256
            &&& b == prompt_budget || b == wanted || b == 256 && wanted < 256
        }),
{
}

/// A counter goes up by what is added, and stays where the machine cannot count on.
pub proof fn law_counters_add_up(a: usize, b: int)
    requires
        b >= 0,
    ensures
        a + b <= usize::MAX ==> ask::plus(a, b) == a + b,
        a + b > usize::MAX ==> ask::plus(a, b) == usize::MAX,
{
}

/// The model is asked as often as is said, and once at least, beginning with the plain prompt.
pub proof fn law_attempts_begin_plainly(prompt: Seq<char>, max_new: u32, max_retries: int)
    ensures
        ({
            let t = attempt::attempt_start(prompt, max_new, max_retries);
            let s = attempt::summary_start(prompt, max_new, max_retries);
            &&& t.prompt == prompt && t.max_new == max_new && t.attempt == 1
            &&& t.hint == Hint::Plain && t.best is None
            &&& s.prompt == prompt && s.max_new == max_new && s.attempt == 1 && !s.hinted
            &&& t.attempts == s.attempts
            &&& max_retries >= 1 ==> t.attempts == max_retries
            &&& max_retries < 1 ==> t.attempts == 1
        }),
{
}

/// Every attempt asks with the whole prompt, and with nothing after it but the hint that the last
/// reply calls for; one after a copy of the source names the target language. It has the room given
/// and the seed of its number.
pub proof fn law_attempts_ask_the_same(t: AttemptView, seed: u32, target_lang: Seq<char>)
    ensures
        ({
            let r = attempt::attempt_request(t, seed, target_lang);
            &&& r.prompt.take(t.prompt.len() as int) == t.prompt
            &&& r.prompt.skip(t.prompt.len() as int) == (match t.hint {
                Hint::Plain => Seq::empty(),
                Hint::Array => ask::HINT_ARRAY@,
                Hint::Copy => ask::HINT_COPY_START@ + target_lang + ask::HINT_COPY_END@,
            })
            &&& r.max_new == t.max_new
            &&& r.seed == chat::drawn_seed(seed, t.attempt) as u32
            &&& r.array
            &&& r.system == ask::SYSTEM_PROMPT@
        }),
{
    let r = attempt::attempt_request(t, seed, target_lang);
    assert(r.prompt.take(t.prompt.len() as int) =~= t.prompt);
    assert(r.prompt.skip(t.prompt.len() as int) =~= attempt::hint_text(t.hint, target_lang));
}

/// Every attempt at a summary asks with the whole prompt; a hint follows once a reply was of no use.
pub proof fn law_summaries_ask_the_same(t: SummaryView, seed: u32)
    ensures
        ({
            let r = attempt::summary_request(t, seed);
            &&& r.prompt.take(t.prompt.len() as int) == t.prompt
            &&& r.prompt.skip(t.prompt.len() as int) == (if t.hinted {
                ask::HINT_OBJECT@
            } else {
                Seq::empty()
            })
            &&& r.max_new == t.max_new
            &&& r.seed == chat::drawn_seed(seed, t.attempt) as u32
            &&& !r.array
            &&& r.system == ask::SYSTEM_PROMPT@
        }),
{
    let r = attempt::summary_request(t, seed);
    assert(r.prompt.take(t.prompt.len() as int) =~= t.prompt);
    assert(r.prompt.skip(t.prompt.len() as int) =~= (if t.hinted {
        ask::HINT_OBJECT@
    } else {
        Seq::empty()
    }));
}

/// A reply that will do at once has texts, and none of them copies its source.
pub open spec fn will_do(batch: Seq<SegmentView>, r: Reply<Seq<ItemView>>) -> bool {
    r is Parsed && r->Parsed_0.len() > 0 && forall|i: int|
        0 <= i < batch.len() ==> !copies::item_copied(#[trigger] batch[i], r->Parsed_0)
}

pub proof fn lemma_no_copies(batch: Seq<SegmentView>, items: Seq<ItemView>)
    ensures
        copies::copies(batch, items) == 0 <==> forall|i: int|
            0 <= i < batch.len() ==> !copies::item_copied(#[trigger] batch[i], items),
    decreases batch.len(),
{
    if batch.len() > 0 {
        let front = batch.drop_last();
        lemma_no_copies(front, items);
        if forall|i: int| 0 <= i < batch.len() ==> !copies::item_copied(#[trigger] batch[i], items) {
            assert forall|i: int| 0 <= i < front.len() implies !copies::item_copied(
                #[trigger] front[i],
                items,
            ) by {
                assert(front[i] == batch[i]);
            }
            assert(!copies::item_copied(batch[batch.len() - 1], items));
        }
        if copies::copies(batch, items) == 0 {
            assert forall|i: int| 0 <= i < batch.len() implies !copies::item_copied(
                #[trigger] batch[i],
                items,
            ) by {
                if i < front.len() {
                    assert(front[i] == batch[i]);
                }
            }
        }
    }
}

/// What a reply to an attempt leads to. One that will do is taken as it is. After any other, the
/// model is asked again while there are attempts left, with the same prompt and room, and with a hint
/// unless it did not answer: that it copied the source if it did, that there was no list otherwise.
/// When no attempt is left, the best reply so far is taken, and the attempts are given up without
/// one.
pub proof fn law_attempts_go_on_until_one_will_do(
    t: AttemptView,
    batch: Seq<SegmentView>,
    r: Reply<Seq<ItemView>>,
)
    ensures
        ({
            let next = attempt::attempt_next(t, batch, r);
            let copied = r is Parsed && r->Parsed_0.len() > 0 && !will_do(batch, r);
            &&& will_do(batch, r) ==> next == Outcome::<Seq<ItemView>, AttemptView>::Found(
                r->Parsed_0,
            )
            &&& !will_do(batch, r) && t.attempt < t.attempts ==> {
                &&& next is Again
                &&& next->Again_0.attempt == t.attempt + 1
                &&& next->Again_0.attempts == t.attempts
                &&& next->Again_0.prompt == t.prompt
                &&& next->Again_0.max_new == t.max_new
                &&& next->Again_0.hint == (if copied {
                    Hint::Copy
                } else if r is Failed {
                    t.hint
                } else {
                    Hint::Array
                })
                &&& !copied ==> next->Again_0.best == t.best
            }
            &&& !will_do(batch, r) && t.attempt >= t.attempts ==> !(next is Again)
            &&& !will_do(batch, r) && t.attempt >= t.attempts ==> (next is GaveUp <==> t.best is None
                && !copied)
        }),
{
    if r is Parsed {
        lemma_no_copies(batch, r->Parsed_0);
    }
}

/// What a reply to an attempt at a summary leads to: one with a summary or a glossary is taken as it
/// is; after any other the model is asked again while there are attempts left, with the same prompt
/// and room.
pub proof fn law_summaries_go_on_until_one_says_something(t: SummaryView, r: Reply<ContextView>)
    ensures
        ({
            let next = attempt::summary_next(t, r);
            let found = r is Parsed && (!spaces::all_white(r->Parsed_0.summary)
                || r->Parsed_0.glossary.len() > 0);
            &&& found ==> next == Outcome::<ContextView, SummaryView>::Found(r->Parsed_0)
            &&& !found && t.attempt >= t.attempts ==> next is GaveUp
            &&& !found && t.attempt < t.attempts ==> {
                &&& next is Again
                &&& next->Again_0.attempt == t.attempt + 1
                &&& next->Again_0.attempts == t.attempts
                &&& next->Again_0.prompt == t.prompt
                &&& next->Again_0.max_new == t.max_new
                &&& next->Again_0.hinted == (t.hinted || !(r is Failed))
            }
        }),
{
    if r is Parsed {
        spaces::lemma_blank(r->Parsed_0.summary);
    }
}

/// The texts of a chunk go to the model one to a line, in their order.
pub proof fn law_transcripts_hold_every_text(list: Seq<SegmentView>)
    ensures
        list.len() == 0 ==> context::transcript(list) == Seq::<char>::empty(),
        list.len() == 1 ==> context::transcript(list) == list[0].text,
        list.len() > 1 ==> context::transcript(list) == context::transcript(list.drop_last())
            + "\n"@ + list.last().text,
{
    let texts = list.map_values(|s: SegmentView| s.text);
    if list.len() > 1 {
        assert(texts.drop_last() =~= list.drop_last().map_values(|s: SegmentView| s.text));
    }
}

} // verus!
