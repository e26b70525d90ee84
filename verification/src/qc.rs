//! Checking recognised sentences one by one.
//!
//! Each sentence goes to the model together with the last ones that passed, and is kept, corrected
//! or dropped. A reply that cannot be used never loses a sentence.

use vstd::prelude::*;
use vstd::string::StringExecFns;

use crate::llm::reply;
use crate::llm::reply::extract_json;
use crate::prompt;
use crate::prompt::PromptStore;
use crate::text::chars::same_text;
use crate::text::number::push_usize;
use crate::text::pieces::join_texts;
use crate::text::spaces::trimmed;
use crate::text::table::TextMap;
use crate::text::{chars, number, pieces, spaces};
use crate::translate::ask;
use crate::translate::ask::{count_up, Reply};
use crate::types;
use crate::types::{QcStats, QcVerdict, SegmentView, SubtitleSegment};

verus! {

/// What the model is told it is when it checks sentences.
pub const QC_SYSTEM: &'static str =
    "你是一个自动语音识别(ASR)质检引擎。你只判断给定字幕是否为有效语音内容，并按要求仅输出一行 JSON，绝不输出任何其他文字。";

/// The tokens that a verdict may have.
pub const QC_MAX_NEW: u32 = 256;

/// How often the model is asked about a sentence.
pub const QC_ATTEMPTS: usize = 2;

/// What to do with a sentence.
#[derive(Clone, Copy, Debug, PartialEq, Eq, Structural)]
pub enum Decision {
    Keep,
    Fix,
    /// The sentence is kept as it is, since the correction has no text.
    FixRejected,
    Drop,
}

/// The word that decides: the decision, or else what the verdict says of validity.
pub open spec fn verdict_word(v: QcVerdict) -> Seq<char> {
    let word = types::normalized(v.decision@);
    if word.len() > 0 {
        word
    } else if v.valid == Some(false) {
        "drop"@
    } else {
        "keep"@
    }
}

pub open spec fn is_drop_word(w: Seq<char>) -> bool {
    w == "drop"@ || w == "noise"@ || w == "invalid"@ || w == "reject"@ || w == "discard"@
}

pub open spec fn is_fix_word(w: Seq<char>) -> bool {
    w == "fix"@ || w == "correct"@ || w == "corrected"@ || w == "rewrite"@
}

/// What a verdict means: a correction without text is not trusted, and a word that says neither
/// keeps the sentence.
pub open spec fn decided(v: QcVerdict) -> Decision {
    let word = verdict_word(v);
    if is_drop_word(word) {
        Decision::Drop
    } else if is_fix_word(word) {
        if spaces::trim(v.text@).len() == 0 {
            Decision::FixRejected
        } else {
            Decision::Fix
        }
    } else {
        Decision::Keep
    }
}

/// What a verdict means.
pub fn decide(v: &QcVerdict) -> (r: Decision)
    ensures
        r == decided(*v),
{
    let mut word = v.normalized_decision();
    if word.as_str().is_empty() {
        word = match v.valid {
            Some(false) => "drop".to_string(),
            _ => "keep".to_string(),
        };
    }
    let w = word.as_str();
    if same_text(w, "drop") || same_text(w, "noise") || same_text(w, "invalid") || same_text(
        w,
        "reject",
    ) || same_text(w, "discard") {
        Decision::Drop
    } else if same_text(w, "fix") || same_text(w, "correct") || same_text(w, "corrected")
        || same_text(w, "rewrite") {
        if trimmed(v.text.as_str()).as_str().is_empty() {
            Decision::FixRejected
        } else {
            Decision::Fix
        }
    } else {
        Decision::Keep
    }
}

/// The verdict in a model's output: what `decode` makes of the best guess at the JSON value.
pub fn read_verdict<F: Fn(&str) -> Result<QcVerdict, String>>(raw: &str, decode: F) -> (r: Reply<
    QcVerdict,
>)
    requires
        forall|x: &str| #[trigger] call_requires(decode, (x,)),
    ensures
        ({
            let found = reply::candidates(raw@, false, 1);
            match r {
                Reply::Parsed(v) => found.len() > 0 && reply::accepts(decode, found[0], v),
                Reply::Unparsable => found.len() > 0 ==> exists|m: String| #[trigger]
                    reply::refuses(decode, found[0], m),
                Reply::Failed => false,
            }
        }),
{
    match extract_json(raw, false) {
        Some(text) => {
            let ghost found = reply::candidates(raw@, false, 1);
            match decode(text.as_str()) {
                Ok(v) => {
                    assert(reply::accepts(decode, found[0], v));
                    Reply::Parsed(v)
                },
                Err(m) => {
                    assert(reply::refuses(decode, found[0], m));
                    Reply::Unparsable
                },
            }
        },
        None => Reply::Unparsable,
    }
}

/// Checks sentences, remembering the last ones that passed.
pub struct QualityChecker {
    /// How many sentences to remember.
    pub context_size: usize,
    pub history: Vec<String>,
    pub stats: QcStats,
}

#[verifier::ext_equal]
pub struct CheckerView {
    pub context_size: int,
    pub history: Seq<Seq<char>>,
    pub stats: QcStats,
}

impl View for QualityChecker {
    type V = CheckerView;

    open spec fn view(&self) -> CheckerView {
        CheckerView {
            context_size: self.context_size as int,
            history: chars::views(self.history@),
            stats: self.stats,
        }
    }
}

/// The history with one more sentence; the oldest goes if there are too many.
pub open spec fn remembered(
    history: Seq<Seq<char>>,
    text: Seq<char>,
    context_size: int,
) -> Seq<Seq<char>> {
    let all = history.push(text);
    if all.len() > context_size {
        all.skip(all.len() - context_size)
    } else {
        all
    }
}

/// One sentence of the history as the model sees it.
pub open spec fn history_line(history: Seq<Seq<char>>, i: int) -> Seq<char> {
    number::decimal((i + 1) as nat) + ". "@ + history[i]
}

/// The history as the model sees it.
pub open spec fn history_lines(history: Seq<Seq<char>>) -> Seq<char> {
    if history.len() == 0 {
        "（这是第一句，暂无上文）"@
    } else {
        pieces::join(Seq::new(history.len(), |i: int| history_line(history, i)), "\n"@)
    }
}

/// The variables of the prompt for a sentence.
pub open spec fn qc_vars(
    history: Seq<Seq<char>>,
    text: Seq<char>,
    duration: Seq<char>,
) -> Map<Seq<char>, Seq<char>> {
    Map::<Seq<char>, Seq<char>>::empty().insert("context"@, history_lines(history)).insert(
        "text"@,
        text,
    ).insert("duration"@, duration)
}

/// The prompt for a sentence, if the template can be rendered.
pub open spec fn qc_prompt(
    templates: Map<Seq<char>, Seq<char>>,
    history: Seq<Seq<char>>,
    text: Seq<char>,
    duration: Seq<char>,
) -> Option<Seq<char>> {
    prompt::rendered(templates, "qc_segment.txt"@, qc_vars(history, text, duration))
}

/// The state of a checker that has not checked anything.
pub open spec fn fresh(context_size: int) -> CheckerView {
    CheckerView {
        context_size: if context_size < 1 {
            1
        } else {
            context_size
        },
        history: Seq::empty(),
        stats: QcStats {
            total: 0,
            kept: 0,
            fixed: 0,
            dropped: 0,
            failed: 0,
            fix_rejected: 0,
            drop_rejected: 0,
            retries: 0,
        },
    }
}

/// The state with one more sentence in the total.
pub open spec fn counted(c: CheckerView) -> CheckerView {
    CheckerView {
        stats: QcStats { total: ask::plus(c.stats.total, 1), ..c.stats },
        ..c
    }
}

/// The state after a sentence that is kept because there is no verdict.
pub open spec fn kept_open(c: CheckerView, text: Seq<char>) -> CheckerView {
    CheckerView {
        history: remembered(c.history, text, c.context_size),
        stats: QcStats {
            failed: ask::plus(c.stats.failed, 1),
            kept: ask::plus(c.stats.kept, 1),
            ..c.stats
        },
        ..c
    }
}

/// The sentence after a verdict; none if it is dropped.
pub open spec fn verdict_text(v: QcVerdict, text: Seq<char>) -> Option<Seq<char>> {
    match decided(v) {
        Decision::Keep | Decision::FixRejected => Some(text),
        Decision::Fix => Some(spaces::trim(v.text@)),
        Decision::Drop => None,
    }
}

/// The state after a verdict.
pub open spec fn verdict_applied(c: CheckerView, v: QcVerdict, text: Seq<char>) -> CheckerView {
    let history = match verdict_text(v, text) {
        Some(t) => remembered(c.history, t, c.context_size),
        None => c.history,
    };
    let stats = match decided(v) {
        Decision::Keep => QcStats { kept: ask::plus(c.stats.kept, 1), ..c.stats },
        Decision::Fix => QcStats { fixed: ask::plus(c.stats.fixed, 1), ..c.stats },
        Decision::FixRejected => QcStats {
            kept: ask::plus(c.stats.kept, 1),
            fix_rejected: ask::plus(c.stats.fix_rejected, 1),
            ..c.stats
        },
        Decision::Drop => QcStats { dropped: ask::plus(c.stats.dropped, 1), ..c.stats },
    };
    CheckerView { history, stats, ..c }
}

/// The state once a sentence is taken, and the prompt to ask about it with. Without a prompt the
/// sentence is kept.
pub open spec fn taken(
    c: CheckerView,
    templates: Map<Seq<char>, Seq<char>>,
    text: Seq<char>,
    duration: Seq<char>,
) -> (CheckerView, Option<Seq<char>>) {
    match qc_prompt(templates, c.history, text, duration) {
        Some(p) => (counted(c), Some(p)),
        None => (kept_open(counted(c), text), None),
    }
}

/// What a verdict makes of a subtitle: its text may be another one, its number and times stay.
pub open spec fn verdict_cue(v: QcVerdict, s: SegmentView) -> SegmentView {
    SegmentView {
        text: match verdict_text(v, s.text) {
            Some(t) => t,
            None => s.text,
        },
        ..s
    }
}

/// Whether the model is asked once more after an attempt whose reply could not be used.
pub open spec fn asked_again(attempt: int) -> bool {
    attempt < QC_ATTEMPTS
}

/// Asking about a sentence.
pub struct QcTask {
    pub prompt: String,
    /// The number of the present attempt, from one on.
    pub attempt: usize,
}

/// What comes next for a sentence.
pub enum QcStep {
    /// Ask the model.
    Ask(QcTask),
    /// The sentence is kept.
    Kept,
    /// The sentence is dropped.
    Dropped,
}

impl QualityChecker {
    /// A checker that remembers `context_size` sentences, one at least.
    pub fn new(context_size: usize) -> (r: Self)
        ensures
            r@ == fresh(context_size as int),
            r.valid(),
    {
        let r = QualityChecker {
            context_size: if context_size < 1 {
                1
            } else {
                context_size
            },
            history: Vec::new(),
            stats: QcStats::default(),
        };
        assert(chars::views(r.history@) =~= Seq::<Seq<char>>::empty());
        r
    }

    /// The counters.
    pub fn stats(&self) -> (r: &QcStats)
        ensures
            *r == self@.stats,
    {
        &self.stats
    }

    /// No more sentences are remembered than are to be.
    pub open spec fn valid(&self) -> bool {
        &&& self@.context_size >= 1
        &&& self@.history.len() <= self@.context_size
    }

    /// Remembers a sentence that passed.
    fn push_history(&mut self, text: &str)
        requires
            old(self).valid(),
        ensures
            final(self).valid(),
            final(self)@ == (CheckerView {
                history: remembered(old(self)@.history, text@, old(self)@.context_size),
                ..old(self)@
            }),
    {
        let ghost before = self@.history;
        assert(before.len() == self.history@.len());
        self.history.push(text.to_string());
        assert(chars::views(self.history@) =~= before.push(text@));
        if self.history.len() > self.context_size {
            let ghost all = self.history@;
            self.history.remove(0);
            assert(chars::views(self.history@) =~= before.push(text@).skip(1));
        }
    }

    /// The history as the model sees it.
    fn history_text(&self) -> (r: String)
        ensures
            r@ == history_lines(self@.history),
    {
        let ghost all = self@.history;
        assert(all.len() == self.history@.len());
        if self.history.len() == 0 {
            return "（这是第一句，暂无上文）".to_string();
        }
        let ghost want = Seq::new(all.len(), |i: int| history_line(all, i));
        let mut lines: Vec<String> = Vec::new();
        for i in 0..self.history.len()
            invariant
                all == self@.history,
                all.len() == self.history@.len(),
                want == Seq::new(all.len(), |i: int| history_line(all, i)),
                lines@.len() == i,
                forall|j: int| 0 <= j < i ==> #[trigger] lines@[j]@ == want[j],
        {
            let mut line = String::new();
            push_usize(&mut line, i + 1);
            assert(line@ =~= number::decimal((i + 1) as nat));
            line.append(". ");
            line.append(self.history[i].as_str());
            assert(all[i as int] == self.history@[i as int]@);
            lines.push(line);
        }
        assert(chars::views(lines@) =~= want);
        join_texts(&lines, "\n")
    }

    /// Keeps a sentence because there is no verdict.
    fn fail_open(&mut self, text: &str)
        requires
            old(self).valid(),
        ensures
            final(self).valid(),
            final(self)@ == kept_open(old(self)@, text@),
    {
        self.stats.failed = count_up(self.stats.failed, 1);
        self.stats.kept = count_up(self.stats.kept, 1);
        self.push_history(text);
    }

    /// Begins with a sentence; `duration` is how long it lasts, in words for the model.
    pub fn begin(
        &mut self,
        store: &PromptStore,
        seg: &SubtitleSegment,
        duration: &str,
    ) -> (r: QcStep)
        requires
            old(self).valid(),
        ensures
            final(self).valid(),
            final(self)@ == taken(old(self)@, store.templates@, seg@.text, duration@).0,
            match taken(old(self)@, store.templates@, seg@.text, duration@).1 {
                Some(p) => r is Ask && r->Ask_0.prompt@ == p && r->Ask_0.attempt == 1,
                None => r is Kept,
            },
    {
        self.stats.total = count_up(self.stats.total, 1);
        let mut vars = TextMap::new();
        vars.insert("context", self.history_text().as_str());
        vars.insert("text", seg.text.as_str());
        vars.insert("duration", duration);
        match store.render("qc_segment.txt", &vars) {
            Ok(prompt) => QcStep::Ask(QcTask { prompt, attempt: 1 }),
            Err(_) => {
                self.fail_open(seg.text.as_str());
                QcStep::Kept
            },
        }
    }

    /// Applies a verdict to a sentence: its text may change.
    pub fn apply(&mut self, verdict: &QcVerdict, seg: &mut SubtitleSegment) -> (kept: bool)
        requires
            old(self).valid(),
        ensures
            final(self).valid(),
            final(self)@ == verdict_applied(old(self)@, *verdict, old(seg)@.text),
            kept == (verdict_text(*verdict, old(seg)@.text) is Some),
            final(seg)@ == verdict_cue(*verdict, old(seg)@),
    {
        match decide(verdict) {
            Decision::Drop => {
                self.stats.dropped = count_up(self.stats.dropped, 1);
                false
            },
            Decision::Fix => {
                self.stats.fixed = count_up(self.stats.fixed, 1);
                seg.text = trimmed(verdict.text.as_str());
                self.push_history(seg.text.as_str());
                true
            },
            Decision::FixRejected => {
                self.stats.kept = count_up(self.stats.kept, 1);
                self.stats.fix_rejected = count_up(self.stats.fix_rejected, 1);
                self.push_history(seg.text.as_str());
                true
            },
            Decision::Keep => {
                self.stats.kept = count_up(self.stats.kept, 1);
                self.push_history(seg.text.as_str());
                true
            },
        }
    }

    /// Takes the answer to a question about a sentence. When the model does not answer, or when
    /// it has been asked often enough, the sentence is kept as it is.
    pub fn answer(
        &mut self,
        task: QcTask,
        reply: Reply<QcVerdict>,
        seg: &mut SubtitleSegment,
    ) -> (r: QcStep)
        requires
            old(self).valid(),
            1 <= task.attempt <= QC_ATTEMPTS,
        ensures
            final(self).valid(),
            match reply {
                Reply::Parsed(v) => {
                    &&& final(self)@ == verdict_applied(old(self)@, v, old(seg)@.text)
                    &&& final(seg)@ == verdict_cue(v, old(seg)@)
                    &&& match verdict_text(v, old(seg)@.text) {
                        Some(_) => r is Kept,
                        None => r is Dropped,
                    }
                },
                _ => {
                    &&& final(seg)@ == old(seg)@
                    &&& if reply is Unparsable && asked_again(task.attempt as int) {
                        &&& final(self)@ == old(self)@
                        &&& r is Ask && r->Ask_0.prompt == task.prompt && r->Ask_0.attempt
                            == task.attempt + 1
                    } else {
                        final(self)@ == kept_open(old(self)@, old(seg)@.text) && r is Kept
                    }
                },
            },
    {
        match reply {
            Reply::Parsed(v) => {
                if self.apply(&v, seg) {
                    QcStep::Kept
                } else {
                    QcStep::Dropped
                }
            },
            Reply::Unparsable => {
                if task.attempt < QC_ATTEMPTS {
                    return QcStep::Ask(
                        QcTask { prompt: task.prompt, attempt: task.attempt + 1 },
                    );
                }
                self.fail_open(seg.text.as_str());
                QcStep::Kept
            },
            Reply::Failed => {
                self.fail_open(seg.text.as_str());
                QcStep::Kept
            },
        }
    }
}

/// The history after a list of sentences that passed.
pub open spec fn history_after(passed: Seq<Seq<char>>, context_size: int) -> Seq<Seq<char>>
    decreases passed.len(),
{
    if passed.len() == 0 {
        Seq::empty()
    } else {
        remembered(history_after(passed.drop_last(), context_size), passed.last(), context_size)
    }
}

/// The sentences that the checker remembers are the last ones that passed, in their order, and as
/// many as it is to remember if there are that many.
pub proof fn law_history_is_the_latest(passed: Seq<Seq<char>>, context_size: int)
    requires
        context_size >= 1,
    ensures
        history_after(passed, context_size) == passed.skip(
            if passed.len() > context_size {
                passed.len() - context_size
            } else {
                0
            },
        ),
    decreases passed.len(),
{
    if passed.len() > 0 {
        let front = passed.drop_last();
        law_history_is_the_latest(front, context_size);
        let all = history_after(front, context_size).push(passed.last());
        if front.len() > context_size {
            assert(all =~= passed.skip(front.len() - context_size));
            assert(all.skip(1) =~= passed.skip(passed.len() - context_size));
        } else {
            assert(all =~= passed);
            assert(passed.skip(0) =~= passed);
        }
    } else {
        assert(passed.skip(0) =~= Seq::<Seq<char>>::empty());
    }
}

/// Every sentence that was taken is counted in the total.
pub open spec fn all_counted(stats: QcStats) -> bool {
    stats.total == stats.kept + stats.fixed + stats.dropped
}

/// Every sentence is counted once, as kept, corrected or dropped, whether there is a verdict on it
/// or not. `asking` is the state while the model is asked about a sentence: it is in the total, but
/// nothing has been done with it.
pub proof fn law_every_sentence_is_counted_once(
    before: CheckerView,
    asking: CheckerView,
    v: QcVerdict,
    text: Seq<char>,
)
    requires
        all_counted(before.stats),
        before.stats.total < usize::MAX,
        asking == counted(before),
    ensures
        all_counted(verdict_applied(asking, v, text).stats),
        all_counted(kept_open(asking, text).stats),
{
}

/// A sentence that was checked: its text, and the verdict on it, if there was one.
pub struct Checked {
    pub text: Seq<char>,
    pub verdict: Option<QcVerdict>,
}

/// The text with which a sentence is accepted; none if it is dropped. Only a verdict drops.
pub open spec fn accepted_text(s: Checked) -> Option<Seq<char>> {
    match s.verdict {
        Some(v) => verdict_text(v, s.text),
        None => Some(s.text),
    }
}

/// The state after a sentence, from its beginning to the end.
pub open spec fn checked_once(c: CheckerView, s: Checked) -> CheckerView {
    match s.verdict {
        Some(v) => verdict_applied(counted(c), v, s.text),
        None => kept_open(counted(c), s.text),
    }
}

/// The state after a list of sentences.
pub open spec fn checked_all(c: CheckerView, list: Seq<Checked>) -> CheckerView
    decreases list.len(),
{
    if list.len() == 0 {
        c
    } else {
        checked_once(checked_all(c, list.drop_last()), list.last())
    }
}

/// The texts of the sentences that are accepted, in order.
pub open spec fn accepted(list: Seq<Checked>) -> Seq<Seq<char>>
    decreases list.len(),
{
    if list.len() == 0 {
        Seq::empty()
    } else {
        let front = accepted(list.drop_last());
        match accepted_text(list.last()) {
            Some(t) => front.push(t),
            None => front,
        }
    }
}

/// Whatever sentences a new checker has checked, and whatever the verdicts were: each of them is in
/// the total, and is kept, corrected or dropped; those that were accepted are the kept and the
/// corrected ones; a sentence without a verdict, or with a correction without text, is kept; and the
/// history holds the texts of the last accepted ones, the oldest first, as many as are remembered.
pub proof fn law_any_sentences_are_accounted_for(context_size: int, list: Seq<Checked>)
    requires
        list.len() <= usize::MAX,
    ensures
        ({
            let start = fresh(context_size);
            let c = checked_all(start, list);
            let passed = accepted(list);
            let n = start.context_size;
            &&& c.stats.total == list.len()
            &&& all_counted(c.stats)
            &&& c.stats.kept + c.stats.fixed == passed.len()
            &&& c.stats.failed + c.stats.fix_rejected <= c.stats.kept
            &&& c.stats.drop_rejected == 0 && c.stats.retries == 0
            &&& c.context_size == n
            &&& c.history == passed.skip(
                if passed.len() > n {
                    passed.len() - n
                } else {
                    0
                },
            )
        }),
{
    lemma_accounts(context_size, list);
    law_history_is_the_latest(accepted(list), fresh(context_size).context_size);
}

proof fn lemma_accounts(context_size: int, list: Seq<Checked>)
    requires
        list.len() <= usize::MAX,
    ensures
        ({
            let start = fresh(context_size);
            let c = checked_all(start, list);
            &&& c.stats.total == list.len()
            &&& all_counted(c.stats)
            &&& c.stats.kept + c.stats.fixed == accepted(list).len()
            &&& c.stats.failed + c.stats.fix_rejected <= c.stats.kept
            &&& c.stats.drop_rejected == 0 && c.stats.retries == 0
            &&& c.context_size == start.context_size
            &&& c.history == history_after(accepted(list), start.context_size)
        }),
    decreases list.len(),
{
    if list.len() > 0 {
        lemma_accounts(context_size, list.drop_last());
        let front = accepted(list.drop_last());
        if let Some(t) = accepted_text(list.last()) {
            assert(front.push(t).drop_last() =~= front);
        }
    }
}

} // verus!
