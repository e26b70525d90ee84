//! Requests to the model and its replies.

use vstd::prelude::*;

use crate::types;
use crate::types::{ContextView, GlobalContext, ItemView, TranslateItem};

verus! {

/// What the model is told it is when it translates or summarises.
pub const SYSTEM_PROMPT: &'static str =
    "你是一个专业的字幕翻译与内容分析助手。请严格按照用户要求的 JSON 格式输出，不要输出任何多余的解释、思考过程、前缀或代码块标记。";

/// What the model is told it is when it reviews translations.
pub const REVIEW_SYSTEM: &'static str =
    "你是一个严格的字幕翻译质检员。请只输出需要修改的条目组成的 JSON 数组，全部达标时输出 []，不要输出任何解释、思考过程或代码块标记。";

/// Added to a prompt after a reply that was no JSON array.
pub const HINT_ARRAY: &'static str = "\n\n【重要】你上一次的输出不是合法 JSON 数组。现在请只输出 JSON 数组，形如 [{\"i\":1,\"t\":\"译文\"}]，条数与输入完全一致，t 必须是目标语言的译文（严禁照抄原文），不要输出思考过程、解释或代码块标记。\n/no_think";

/// Added to a prompt after a reply that was no JSON object, or an empty one.
pub const HINT_OBJECT: &'static str = "\n\n【重要】你上一次的输出不是合法 JSON 对象，或者内容为空。现在请只输出 JSON 对象，形如 {\"summary\":\"...\",\"glossary\":[{\"source\":\"...\",\"target\":\"...\"}]}，summary 与 glossary 都必须有实际内容，不要输出思考过程、解释或代码块标记。\n/no_think";

/// Added to a review prompt when the translations still hold text in the source's script.
pub const STRICT_HINT: &'static str = "\n\n【第二轮·重点】下面这些条目的译文里**仍然残留日文假名或日文词**。请把它们重写为纯中文：专有名词用中文通用译名或音译（おせんべい->仙贝、キャラ->角色、ほうとう->宝刀面、スカイツリー->天空树），实在没有通用译名时用中文描述性说法，**译文中不允许出现任何假名**。只输出需要修改的条目。\n/no_think";

/// The hint after a reply that handed the source back, up to the name of the target language.
pub const HINT_COPY_START: &'static str = "\n\n【重要】你上一次把原文照抄回来了，没有翻译。请重新输出 JSON 数组，形如 [{\"i\":1,\"t\":\"译文\"}]，每条 t 都必须是";

/// The hint after a reply that handed the source back, from the name of the target language on.
pub const HINT_COPY_END: &'static str = "，条数与输入一致，不要输出思考过程、解释或代码块标记。\n/no_think";

/// One request to the model.
pub struct ChatRequest {
    pub system: String,
    pub prompt: String,
    pub seed: u32,
    /// How many tokens the reply may have.
    pub max_new: u32,
    /// Whether the reply is to be a JSON array; otherwise it is to be an object.
    pub array: bool,
}

pub struct RequestView {
    pub system: Seq<char>,
    pub prompt: Seq<char>,
    pub seed: u32,
    pub max_new: u32,
    pub array: bool,
}

impl View for ChatRequest {
    type V = RequestView;

    open spec fn view(&self) -> RequestView {
        RequestView {
            system: self.system@,
            prompt: self.prompt@,
            seed: self.seed,
            max_new: self.max_new,
            array: self.array,
        }
    }
}

/// What came of a request.
pub enum Reply<T> {
    /// The model did not answer.
    Failed,
    /// The answer does not hold what was asked for.
    Unparsable,
    /// The value in the answer.
    Parsed(T),
}

pub open spec fn context_reply(r: Reply<GlobalContext>) -> Reply<ContextView> {
    match r {
        Reply::Failed => Reply::Failed,
        Reply::Unparsable => Reply::Unparsable,
        Reply::Parsed(c) => Reply::Parsed(c@),
    }
}

pub open spec fn items_reply(r: Reply<Vec<TranslateItem>>) -> Reply<Seq<ItemView>> {
    match r {
        Reply::Failed => Reply::Failed,
        Reply::Unparsable => Reply::Unparsable,
        Reply::Parsed(v) => Reply::Parsed(types::entries(v@)),
    }
}

/// What happened: the answer to a question about tokens or to a request.
pub enum Event {
    /// A text was counted.
    Tokens(usize),
    /// The model was asked for a summary.
    Context(Reply<GlobalContext>),
    /// The model was asked for a list of texts.
    Items(Reply<Vec<TranslateItem>>),
}

pub enum EventView {
    Tokens(int),
    Context(Reply<ContextView>),
    Items(Reply<Seq<ItemView>>),
}

impl View for Event {
    type V = EventView;

    open spec fn view(&self) -> EventView {
        match *self {
            Event::Tokens(n) => EventView::Tokens(n as int),
            Event::Context(r) => EventView::Context(context_reply(r)),
            Event::Items(r) => EventView::Items(items_reply(r)),
        }
    }
}

/// What is to be done next.
pub enum Action {
    /// Count the tokens of a text.
    Count(String),
    /// Ask the model.
    Ask(ChatRequest),
    /// Nothing: the work is done.
    Finish,
}

pub enum ActionView {
    Count(Seq<char>),
    Ask(RequestView),
    Finish,
}

impl View for Action {
    type V = ActionView;

    open spec fn view(&self) -> ActionView {
        match *self {
            Action::Count(t) => ActionView::Count(t@),
            Action::Ask(r) => ActionView::Ask(r@),
            Action::Finish => ActionView::Finish,
        }
    }
}

/// `a` and `b` together, as far as the machine can count.
pub open spec fn plus(a: usize, b: int) -> usize {
    if a + b > usize::MAX {
        usize::MAX
    } else {
        (a + b) as usize
    }
}

/// Adds to a counter.
pub fn count_up(counter: usize, n: usize) -> (r: usize)
    ensures
        r == plus(counter, n as int),
{
    if n > usize::MAX - counter {
        usize::MAX
    } else {
        counter + n
    }
}

/// The tokens that are kept free for the reply and for the template round a prompt.
pub const RESERVED_TOKENS: usize = 2048;

/// The tokens that a prompt may have.
pub open spec fn budget(n_ctx: int) -> int {
    if n_ctx - RESERVED_TOKENS < 512 {
        512
    } else {
        n_ctx - RESERVED_TOKENS
    }
}

/// The tokens that a prompt may have in a context of `n_ctx` tokens.
pub fn prompt_budget(n_ctx: usize) -> (r: usize)
    ensures
        r == budget(n_ctx as int),
{
    if n_ctx < RESERVED_TOKENS + 512 {
        512
    } else {
        n_ctx - RESERVED_TOKENS
    }
}

/// The tokens that a summary may have.
pub const SUMMARY_MAX_NEW: usize = 2048;

/// The tokens that the reply to a summary prompt may have: what the context leaves, within limits.
pub open spec fn summary_room(n_ctx: int, prompt_tokens: int) -> int {
    let room = n_ctx - (prompt_tokens + 64);
    if room < 256 {
        256
    } else if room > SUMMARY_MAX_NEW {
        SUMMARY_MAX_NEW as int
    } else {
        room
    }
}

/// The tokens that the reply to a summary prompt may have.
pub fn summary_max_new(n_ctx: usize, prompt_tokens: usize) -> (r: u32)
    ensures
        r == summary_room(n_ctx as int, prompt_tokens as int),
{
    let room: i128 = n_ctx as i128 - (prompt_tokens as i128 + 64);
    if room < 256 {
        256
    } else if room > SUMMARY_MAX_NEW as i128 {
        SUMMARY_MAX_NEW as u32
    } else {
        room as u32
    }
}

/// The tokens that the reply for `count` subtitles may have: so many for each, within limits.
pub open spec fn items_room(tokens_per_item: int, count: int) -> int {
    let room = tokens_per_item * count + 256;
    if room < 512 {
        512
    } else if room > 6144 {
        6144
    } else {
        room
    }
}

/// The tokens that the reply for `count` subtitles may have.
pub fn items_max_new(tokens_per_item: usize, count: usize) -> (r: u32)
    ensures
        r == items_room(tokens_per_item as int, count as int),
{
    assert(tokens_per_item * count + 256 <= u128::MAX) by (nonlinear_arith)
        requires
            0 <= tokens_per_item <= u64::MAX,
            0 <= count <= u64::MAX,
    ;
    assert(tokens_per_item * count >= 0) by (nonlinear_arith)
        requires
            0 <= tokens_per_item,
            0 <= count,
    ;
    let room: u128 = tokens_per_item as u128 * count as u128 + 256;
    if room < 512 {
        512
    } else if room > 6144 {
        6144
    } else {
        room as u32
    }
}

} // verus!
