//! Framing a prompt and driving generation.

use vstd::arithmetic::div_mod::{lemma_add_mod_noop, lemma_mul_mod_noop_left};
use vstd::prelude::*;
use vstd::string::StringExecFns;

use crate::text::number;
use crate::text::number::push_usize;

verus! {

/// A system message and a user message as one prompt, ready for the reply.
pub open spec fn framed(system: Seq<char>, user: Seq<char>) -> Seq<char> {
    "<|im_start|>system\n"@ + system + "<|im_end|>\n<|im_start|>user\n"@ + user
        + "<|im_end|>\n<|im_start|>assistant\n"@
}

/// A system message and a user message as one prompt, ready for the reply.
pub fn chat_prompt(system: &str, user: &str) -> (r: String)
    ensures
        r@ == framed(system@, user@),
{
    let mut r = "<|im_start|>system\n".to_string();
    r.append(system);
    r.append("<|im_end|>\n<|im_start|>user\n");
    r.append(user);
    r.append("<|im_end|>\n<|im_start|>assistant\n");
    r
}

/// The seed for the n-th draw: another for each attempt, the same for the same attempt.
pub open spec fn drawn_seed(seed: u32, attempt: int) -> int {
    (seed + (attempt % 0x1_0000_0000) * 0x9E37_79B9 % 0x1_0000_0000) % 0x1_0000_0000
}

/// The seed for the n-th draw.
pub fn resample_seed(seed: u32, attempt: usize) -> (r: u32)
    ensures
        r == drawn_seed(seed, attempt as int),
{
    let low: u64 = (attempt as u64) % 0x1_0000_0000;
    assert(low * 0x9E37_79B9 <= u64::MAX) by (nonlinear_arith)
        requires
            low < 0x1_0000_0000,
    ;
    let step: u64 = (low * 0x9E37_79B9) % 0x1_0000_0000;
    let sum: u64 = (seed as u64 + step) % 0x1_0000_0000;
    sum as u32
}

/// Multiplying by the step of the seeds can be undone.
proof fn lemma_step_undone(attempt: int)
    requires
        0 <= attempt < 0x1_0000_0000,
    ensures
        attempt == (attempt * 0x9E37_79B9 % 0x1_0000_0000) * 0x144C_BC89 % 0x1_0000_0000,
{
    let m: int = 0x1_0000_0000;
    let product = attempt * 0x9E37_79B9;
    let x = product % m;
    let q = product / m;
    assert(x * 0x144C_BC89 == attempt + m * (attempt * 210485888 - q * 0x144C_BC89)) by (nonlinear_arith)
        requires
            product == attempt * 0x9E37_79B9,
            product == m * q + x,
            m == 0x1_0000_0000,
    ;
    let k = attempt * 210485888 - q * 0x144C_BC89;
    assert((attempt + m * k) % m == attempt) by (nonlinear_arith)
        requires
            0 <= attempt < m,
            m == 0x1_0000_0000,
    ;
}

/// No two attempts draw from the same seed.
pub proof fn law_attempts_draw_differently(seed: u32, a: int, b: int)
    requires
        0 <= a < 0x1_0000_0000,
        0 <= b < 0x1_0000_0000,
        a != b,
    ensures
        drawn_seed(seed, a) != drawn_seed(seed, b),
{
    lemma_step_undone(a);
    lemma_step_undone(b);
    let x = a * 0x9E37_79B9 % 0x1_0000_0000;
    let y = b * 0x9E37_79B9 % 0x1_0000_0000;
    assert(a % 0x1_0000_0000 == a && b % 0x1_0000_0000 == b);
    assert((seed + x) % 0x1_0000_0000 == (seed + y) % 0x1_0000_0000 ==> x == y);
}

/// The draw before any attempt is from the seed itself, and drawing on from a drawn seed is one draw
/// further along: attempts add up.
pub proof fn law_draws_add_up(seed: u32, a: int, b: int)
    requires
        0 <= a,
        0 <= b,
    ensures
        drawn_seed(seed, 0) == seed,
        drawn_seed(drawn_seed(seed, a) as u32, b) == drawn_seed(seed, a + b),
{
    let m: int = 0x1_0000_0000;
    let c: int = 0x9E37_79B9;
    let x = (a % m) * c % m;
    let y = (b % m) * c % m;
    lemma_mul_mod_noop_left(a, c, m);
    lemma_mul_mod_noop_left(b, c, m);
    lemma_mul_mod_noop_left(a + b, c, m);
    assert((a + b) * c == a * c + b * c) by (nonlinear_arith);
    lemma_add_mod_noop(a * c, b * c, m);
    assert(((a + b) % m) * c % m == (x + y) % m);
    let t = (seed + x) % m;
    assert((t + y) % m == (seed + (x + y) % m) % m);
}

/// Why a prompt cannot be sent.
#[derive(Clone, Copy, Debug, PartialEq, Eq, Structural)]
pub enum PromptRefusal {
    /// The prompt has no tokens.
    Empty,
    /// The prompt leaves no room for a reply.
    TooLong { tokens: usize, n_ctx: usize },
}

impl PromptRefusal {
    pub open spec fn message_text(self) -> Seq<char> {
        match self {
            PromptRefusal::Empty => "Prompt 分词结果为空"@,
            PromptRefusal::TooLong { tokens, n_ctx } => "Prompt 长度（"@ + number::decimal(
                tokens as nat,
            ) + " tokens）超出上下文（"@ + number::decimal(n_ctx as nat)
                + " tokens），请减小批次或增大 --ctx-size"@,
        }
    }

    /// What to tell the user.
    pub fn message(&self) -> (r: String)
        ensures
            r@ == self.message_text(),
    {
        match self {
            PromptRefusal::Empty => "Prompt 分词结果为空".to_string(),
            PromptRefusal::TooLong { tokens, n_ctx } => {
                let mut r = "Prompt 长度（".to_string();
                push_usize(&mut r, *tokens);
                r.append(" tokens）超出上下文（");
                push_usize(&mut r, *n_ctx);
                r.append(" tokens），请减小批次或增大 --ctx-size");
                r
            },
        }
    }
}

/// The tokens that must be left for a reply.
pub const MIN_REPLY_ROOM: usize = 16;

/// Whether a prompt can be sent: it has tokens, and leaves room for a reply.
pub open spec fn can_be_sent(tokens: int, n_ctx: int) -> bool {
    tokens > 0 && tokens + MIN_REPLY_ROOM < n_ctx
}

/// The position before which generation ends: `max_new` tokens after the prompt, but four tokens
/// before the end of the context.
pub open spec fn generation_end(tokens: int, n_ctx: int, max_new: int) -> int {
    if tokens + max_new < n_ctx - 4 {
        tokens + max_new
    } else {
        n_ctx - 4
    }
}

/// Checks that a prompt leaves room for a reply, and gives the position before which generation
/// ends.
pub fn plan_generation(tokens: usize, n_ctx: usize, max_new: u32) -> (r: Result<
    usize,
    PromptRefusal,
>)
    ensures
        r is Err ==> r->Err_0 == (if tokens == 0 {
            PromptRefusal::Empty
        } else {
            PromptRefusal::TooLong { tokens, n_ctx }
        }),
        r is Ok <==> can_be_sent(tokens as int, n_ctx as int),
        r is Ok ==> r->Ok_0 == generation_end(tokens as int, n_ctx as int, max_new as int),
        r is Ok ==> tokens <= r->Ok_0 < n_ctx,
{
    if tokens == 0 {
        return Err(PromptRefusal::Empty);
    }
    if n_ctx <= MIN_REPLY_ROOM || tokens >= n_ctx - MIN_REPLY_ROOM {
        return Err(PromptRefusal::TooLong { tokens, n_ctx });
    }
    let room: usize = n_ctx - 4 - tokens;
    let end: usize = if (max_new as u64) < room as u64 {
        tokens + max_new as usize
    } else {
        n_ctx - 4
    };
    Ok(end)
}

/// How many tokens go to the model at a time.
pub open spec fn chunk_size(total: int, n_batch: int) -> int {
    let n = if n_batch < 1 {
        1
    } else {
        n_batch
    };
    if total < n {
        total
    } else {
        n
    }
}

/// The stretches in which `total` tokens go to the model, each `cap` long but the last.
pub open spec fn prefill_chunks(total: int, cap: int) -> Seq<(int, int)>
    decreases total,
{
    if total <= 0 || cap <= 0 {
        Seq::empty()
    } else {
        let from = (total - 1) / cap * cap;
        if 0 <= from < total {
            prefill_chunks(from, cap).push((from, total))
        } else {
            Seq::empty()
        }
    }
}

/// The stretches in which the tokens of a prompt go to the model: no more than `n_batch` at a time.
pub fn prefill_plan(total: usize, n_batch: usize) -> (r: Vec<(usize, usize)>)
    ensures
        crate::translate::batches::ranges(r@) == prefill_chunks(
            total as int,
            chunk_size(total as int, n_batch as int),
        ),
{
    let n: usize = if n_batch < 1 {
        1
    } else {
        n_batch
    };
    let cap: usize = if total < n {
        total
    } else {
        n
    };
    let mut out: Vec<(usize, usize)> = Vec::new();
    let mut from: usize = 0;
    assert(crate::translate::batches::ranges(out@) =~= prefill_chunks(0, cap as int));
    if cap == 0 {
        return out;
    }
    let ghost mut k: int = 0;
    while from < total
        invariant
            0 < cap <= total,
            from <= total,
            k >= 0,
            from == k * cap || from == total,
            crate::translate::batches::ranges(out@) == prefill_chunks(from as int, cap as int),
        decreases total - from,
    {
        let to: usize = if cap < total - from {
            from + cap
        } else {
            total
        };
        let ghost before = crate::translate::batches::ranges(out@);
        out.push((from, to));
        proof {
            lemma_chunk_start(k, cap as int, to as int);
            assert(crate::translate::batches::ranges(out@) =~= before.push(
                (from as int, to as int),
            ));
            assert((k + 1) * cap == k * cap + cap) by (nonlinear_arith);
            k = k + 1;
        }
        from = to;
    }
    out
}

proof fn lemma_chunk_start(k: int, cap: int, to: int)
    requires
        cap > 0,
        k >= 0,
        k * cap < to <= k * cap + cap,
    ensures
        (to - 1) / cap * cap == k * cap,
        0 <= k * cap,
{
    let d = to - 1 - k * cap;
    assert(to - 1 == k * cap + d && 0 <= d < cap);
    assert((to - 1) / cap == k) by (nonlinear_arith)
        requires
            to - 1 == k * cap + d,
            0 <= d < cap,
    ;
    assert(0 <= k * cap) by (nonlinear_arith)
        requires
            k >= 0,
            cap > 0,
    ;
}

/// The stretches follow each other from the first token to the last, and none is longer than the
/// model takes at a time.
pub proof fn law_prefill_covers(total: int, cap: int)
    requires
        total >= 0,
        cap > 0,
    ensures
        ({
            let plan = prefill_chunks(total, cap);
            &&& total > 0 ==> plan.len() > 0 && plan[0].0 == 0 && plan.last().1 == total
            &&& forall|i: int|
                0 <= i < plan.len() ==> (#[trigger] plan[i]).0 < plan[i].1 <= plan[i].0 + cap
            &&& forall|i: int| 0 < i < plan.len() ==> (#[trigger] plan[i]).0 == plan[i - 1].1
        }),
    decreases total,
{
    if total > 0 {
        let q = (total - 1) / cap;
        assert(0 <= q * cap <= total - 1 && total - 1 < q * cap + cap) by (nonlinear_arith)
            requires
                total >= 1,
                cap > 0,
                q == (total - 1) / cap,
        ;
        let from = q * cap;
        law_prefill_covers(from, cap);
        let front = prefill_chunks(from, cap);
        let plan = prefill_chunks(total, cap);
        assert(plan == front.push((from, total)));
        if from == 0 {
            assert(front =~= Seq::empty());
        }
        assert forall|i: int| 0 < i < plan.len() implies (#[trigger] plan[i]).0
            == plan[i - 1].1 by {
            if i < front.len() {
                assert(plan[i] == front[i] && plan[i - 1] == front[i - 1]);
            } else {
                assert(plan[i - 1] == front.last());
            }
        }
        assert forall|i: int| 0 <= i < plan.len() implies (#[trigger] plan[i]).0 < plan[i].1
            <= plan[i].0 + cap by {
            if i < front.len() {
                assert(plan[i] == front[i]);
            }
        }
    }
}

/// Only the last token of a prompt asks for a prediction.
pub fn wants_logits(position: usize, total: usize) -> (r: bool)
    ensures
        r == (position + 1 == total),
{
    position < total && total - position == 1
}

/// A reply that is being generated.
pub struct Generation {
    /// The position of the next token.
    pub at: usize,
    /// The position before which generation ends.
    pub end: usize,
    /// The model has ended its reply.
    pub ended: bool,
    /// The text so far.
    pub text: String,
}

/// What a reply being generated stands at.
pub struct GenerationView {
    pub at: int,
    pub end: int,
    pub ended: bool,
    pub text: Seq<char>,
}

impl View for Generation {
    type V = GenerationView;

    open spec fn view(&self) -> GenerationView {
        GenerationView {
            at: self.at as int,
            end: self.end as int,
            ended: self.ended,
            text: self.text@,
        }
    }
}

/// The reply after one more token: an end token ends it; any other adds its piece of text, if it
/// stands for one, and moves on.
pub open spec fn token_taken(g: GenerationView, ends: bool, piece: Option<Seq<char>>) -> GenerationView {
    if ends {
        GenerationView { ended: true, ..g }
    } else {
        GenerationView {
            at: g.at + 1,
            text: match piece {
                Some(p) => g.text + p,
                None => g.text,
            },
            ..g
        }
    }
}

impl Generation {
    /// Starts after a prompt of `tokens` tokens.
    pub fn start(tokens: usize, end: usize) -> (r: Self)
        ensures
            r@ == (GenerationView {
                at: tokens as int,
                end: end as int,
                ended: false,
                text: Seq::empty(),
            }),
    {
        let r = Generation { at: tokens, end, ended: false, text: String::new() };
        assert(r.text@ =~= Seq::<char>::empty());
        r
    }

    /// Whether to ask the model for another token.
    pub fn goes_on(&self) -> (r: bool)
        ensures
            r == (!self@.ended && self@.at < self@.end),
    {
        !self.ended && self.at < self.end
    }

    /// Takes the next token, and tells at which position to feed it back, if at all.
    pub fn take_token(&mut self, ends: bool, piece: Option<String>) -> (r: Option<usize>)
        requires
            old(self)@.at < old(self)@.end,
        ensures
            final(self)@ == token_taken(
                old(self)@,
                ends,
                match piece {
                    Some(p) => Some(p@),
                    None => None,
                },
            ),
            r == (if ends {
                None
            } else {
                Some(old(self).at)
            }),
    {
        if ends {
            self.ended = true;
            return None;
        }
        if let Some(p) = piece {
            self.text.append(p.as_str());
        }
        let position: usize = self.at;
        self.at = position + 1;
        Some(position)
    }

    /// Whether the reply was cut off.
    pub fn truncated(&self) -> (r: bool)
        ensures
            r == (self@.at >= self@.end),
    {
        self.at >= self.end
    }
}

} // verus!
