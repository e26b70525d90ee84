//! How prompts are framed and sent, and how replies grow.

use vstd::prelude::*;

use crate::llm::chat;
use crate::llm::chat::GenerationView;

verus! {

/// A prompt holds the system message and then the user message, each as it is, and ends where the
/// reply begins: messages of the same lengths give prompts that differ in the messages only.
pub proof fn law_messages_are_framed(system: Seq<char>, user: Seq<char>)
    ensures
        ({
            let r = chat::framed(system, user);
            let start = "<|im_start|>system\n"@.len() as int;
            let mid = "<|im_end|>\n<|im_start|>user\n"@.len() as int;
            let a = start + system.len();
            let b = a + mid;
            &&& r.take(start) == "<|im_start|>system\n"@
            &&& r.subrange(start, a) == system
            &&& r.subrange(a, b) == "<|im_end|>\n<|im_start|>user\n"@
            &&& r.subrange(b, b + user.len()) == user
            &&& r.skip(b + user.len()) == "<|im_end|>\n<|im_start|>assistant\n"@
        }),
{
    let r = chat::framed(system, user);
    let start = "<|im_start|>system\n"@.len() as int;
    let mid = "<|im_end|>\n<|im_start|>user\n"@.len() as int;
    let a = start + system.len();
    let b = a + mid;
    assert(r.take(start) =~= "<|im_start|>system\n"@);
    assert(r.subrange(start, a) =~= system);
    assert(r.subrange(a, b) =~= "<|im_end|>\n<|im_start|>user\n"@);
    assert(r.subrange(b, b + user.len()) =~= user);
    assert(r.skip(b + user.len()) =~= "<|im_end|>\n<|im_start|>assistant\n"@);
}

/// The seeds of successive attempts are the same step apart, counting round 32 bits.
pub proof fn law_seeds_are_a_step_apart(seed: u32, attempt: int)
    requires
        attempt >= 0,
    ensures
        0 <= chat::drawn_seed(seed, attempt) <= u32::MAX,
        ({
            let step = chat::drawn_seed(seed, attempt + 1) - chat::drawn_seed(seed, attempt);
            step == 2654435769 || step == 2654435769 - 4294967296
        }),
{
    let m: int = 0x1_0000_0000;
    chat::law_draws_add_up(seed, attempt, 1);
    let here = chat::drawn_seed(seed, attempt);
    assert(0 <= here < m);
    assert(chat::drawn_seed(here as u32, 1) == (here + 0x9E37_79B9) % m);
}

/// A reply may have as many tokens as are allowed, but the last four places of the context stay
/// free; it ends at the first of the two.
pub proof fn law_replies_end_in_the_context(tokens: int, n_ctx: int, max_new: int)
    ensures
        chat::generation_end(tokens, n_ctx, max_new) <= tokens + max_new,
        chat::generation_end(tokens, n_ctx, max_new) <= n_ctx - 4,
        chat::generation_end(tokens, n_ctx, max_new) == tokens + max_new || chat::generation_end(
            tokens,
            n_ctx,
            max_new,
        ) == n_ctx - 4,
{
}

/// Prompts go to the model in stretches as long as it takes, one token at least; only the last may be
/// shorter.
pub proof fn law_prefill_is_in_full_stretches(total: int, n_batch: int)
    requires
        total > 0,
    ensures
        ({
            let plan = chat::prefill_chunks(total, chat::chunk_size(total, n_batch));
            let cap = if n_batch < 1 {
                1
            } else {
                n_batch
            };
            &&& plan.len() > 0 && plan[0].0 == 0 && plan.last().1 == total
            &&& forall|i: int|
                0 <= i < plan.len() - 1 ==> (#[trigger] plan[i]).1 - plan[i].0 == cap
            &&& 0 < plan.last().1 - plan.last().0 <= cap
            &&& forall|i: int| 0 < i < plan.len() ==> (#[trigger] plan[i]).0 == plan[i - 1].1
        }),
{
    let size = chat::chunk_size(total, n_batch);
    chat::law_prefill_covers(total, size);
    lemma_full_stretches(total, size);
    let plan = chat::prefill_chunks(total, size);
    assert(plan[plan.len() - 1] == plan.last());
    if plan.len() > 1 {
        assert(plan[0].1 - plan[0].0 == size);
        assert(plan[1].0 == plan[0].1);
        lemma_ends_rise(plan, size, 1);
        assert(size < total);
    }
}

proof fn lemma_ends_rise(plan: Seq<(int, int)>, size: int, i: int)
    requires
        0 <= i < plan.len(),
        size > 0,
        plan[0].0 == 0,
        forall|i: int| 0 <= i < plan.len() ==> (#[trigger] plan[i]).0 < plan[i].1,
        forall|i: int| 0 <= i < plan.len() - 1 ==> (#[trigger] plan[i]).1 - plan[i].0 == size,
        forall|i: int| 0 < i < plan.len() ==> (#[trigger] plan[i]).0 == plan[i - 1].1,
        i >= 1,
    ensures
        plan.last().1 > size,
    decreases plan.len() - i,
{
    if i < plan.len() - 1 {
        lemma_ends_rise(plan, size, i + 1);
    } else {
        lemma_starts(plan, size, i);
        assert(plan[i] == plan.last());
    }
}

proof fn lemma_starts(plan: Seq<(int, int)>, size: int, i: int)
    requires
        1 <= i < plan.len(),
        size > 0,
        plan[0].0 == 0,
        forall|i: int| 0 <= i < plan.len() ==> (#[trigger] plan[i]).0 < plan[i].1,
        forall|i: int| 0 <= i < plan.len() - 1 ==> (#[trigger] plan[i]).1 - plan[i].0 == size,
        forall|i: int| 0 < i < plan.len() ==> (#[trigger] plan[i]).0 == plan[i - 1].1,
    ensures
        plan[i].0 >= size,
    decreases i,
{
    assert(plan[i].0 == plan[i - 1].1);
    assert(plan[i - 1].1 - plan[i - 1].0 == size);
    if i > 1 {
        lemma_starts(plan, size, i - 1);
    }
}

proof fn lemma_full_stretches(total: int, cap: int)
    requires
        total >= 0,
        cap > 0,
    ensures
        ({
            let plan = chat::prefill_chunks(total, cap);
            &&& forall|i: int|
                0 <= i < plan.len() - 1 ==> (#[trigger] plan[i]).1 - plan[i].0 == cap
            &&& total % cap == 0 && plan.len() > 0 ==> plan.last().1 - plan.last().0 == cap
        }),
    decreases total,
{
    if total > 0 {
        let q = (total - 1) / cap;
        let from = q * cap;
        assert(0 <= q * cap <= total - 1 && total - 1 < q * cap + cap) by (nonlinear_arith)
            requires
                total >= 1,
                cap > 0,
                q == (total - 1) / cap,
        ;
        lemma_full_stretches(from, cap);
        assert(from % cap == 0) by (nonlinear_arith)
            requires
                from == q * cap,
                cap > 0,
        ;
        let front = chat::prefill_chunks(from, cap);
        let plan = chat::prefill_chunks(total, cap);
        assert(plan == front.push((from, total)));
        assert forall|i: int| 0 <= i < plan.len() - 1 implies (#[trigger] plan[i]).1 - plan[i].0
            == cap by {
            assert(plan[i] == front[i]);
            if i == front.len() - 1 {
                assert(front[i] == front.last());
            }
        }
        if total % cap == 0 {
            assert(total - from == cap) by (nonlinear_arith)
                requires
                    total % cap == 0,
                    cap > 0,
                    from == q * cap,
                    from <= total - 1,
                    total - 1 < from + cap,
            ;
        }
    }
}

/// The reply after a list of tokens, none of which ends it.
pub open spec fn grown(g: GenerationView, tokens: Seq<Option<Seq<char>>>) -> GenerationView
    decreases tokens.len(),
{
    if tokens.len() == 0 {
        g
    } else {
        chat::token_taken(grown(g, tokens.drop_last()), false, tokens.last())
    }
}

/// The texts of tokens one after the other; some stand for none.
pub open spec fn pieces_together(tokens: Seq<Option<Seq<char>>>) -> Seq<char>
    decreases tokens.len(),
{
    if tokens.len() == 0 {
        Seq::empty()
    } else {
        pieces_together(tokens.drop_last()) + (match tokens.last() {
            Some(t) => t,
            None => Seq::empty(),
        })
    }
}

/// A reply is the texts of its tokens one after the other, and moves one place on for each of them. A
/// token that ends it adds nothing.
pub proof fn law_replies_are_their_tokens(g: GenerationView, tokens: Seq<Option<Seq<char>>>)
    ensures
        grown(g, tokens).text == g.text + pieces_together(tokens),
        grown(g, tokens).at == g.at + tokens.len(),
        grown(g, tokens).end == g.end && grown(g, tokens).ended == g.ended,
        forall|piece: Option<Seq<char>>| #[trigger]
            chat::token_taken(g, true, piece) == (GenerationView { ended: true, ..g }),
    decreases tokens.len(),
{
    if tokens.len() > 0 {
        law_replies_are_their_tokens(g, tokens.drop_last());
        let front = pieces_together(tokens.drop_last());
        match tokens.last() {
            Some(t) => {
                assert(g.text + (front + t) =~= g.text + front + t);
            },
            None => {
                assert(front + Seq::<char>::empty() =~= front);
            },
        }
    } else {
        assert(g.text + Seq::<char>::empty() =~= g.text);
    }
}

/// A prompt can be sent exactly if it has tokens and leaves more than sixteen of the context.
pub proof fn law_prompts_that_leave_room_are_sent(tokens: int, n_ctx: int)
    ensures
        chat::can_be_sent(tokens, n_ctx) <==> tokens > 0 && n_ctx - tokens > 16,
{
}

/// A prompt that is sent leaves room for a reply of thirteen tokens at least, or of as many as are
/// allowed.
pub proof fn law_sent_prompts_leave_room(tokens: int, n_ctx: int, max_new: int)
    requires
        chat::can_be_sent(tokens, n_ctx),
        max_new >= 0,
    ensures
        chat::generation_end(tokens, n_ctx, max_new) - tokens >= 13 || chat::generation_end(
            tokens,
            n_ctx,
            max_new,
        ) - tokens == max_new,
{
}

} // verus!
