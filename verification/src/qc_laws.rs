//! What verdicts mean.

use vstd::prelude::*;

use crate::prompt;
use crate::qc;
use crate::qc::CheckerView;
use crate::text::{number, pieces, space_laws, spaces};
use crate::types;
use crate::types::{QcStats, QcVerdict, SegmentView};

verus! {

/// The decision is one of the words for dropping a sentence, or there is none and the sentence is
/// said not to be valid.
pub open spec fn says_drop(v: QcVerdict) -> bool {
    let w = types::normalized(v.decision@);
    if w.len() == 0 {
        v.valid == Some(false)
    } else {
        w == "drop"@ || w == "noise"@ || w == "invalid"@ || w == "reject"@ || w == "discard"@
    }
}

/// The decision is one of the words for correcting a sentence.
pub open spec fn says_fix(v: QcVerdict) -> bool {
    let w = types::normalized(v.decision@);
    w == "fix"@ || w == "correct"@ || w == "corrected"@ || w == "rewrite"@
}

proof fn lemma_words()
    ensures
        "drop"@.len() == 4 && "keep"@.len() == 4 && "noise"@.len() == 5 && "reject"@.len() == 6,
        "fix"@.len() == 3 && "correct"@.len() == 7 && "corrected"@.len() == 9,
        "invalid"@.len() == 7 && "discard"@.len() == 7 && "rewrite"@.len() == 7,
        "drop"@[0] == 'd' && "keep"@[0] == 'k' && "invalid"@[0] == 'i' && "discard"@[0] == 'd',
        "correct"@[0] == 'c' && "rewrite"@[0] == 'r',
{
    reveal_strlit("drop");
    reveal_strlit("keep");
    reveal_strlit("noise");
    reveal_strlit("invalid");
    reveal_strlit("reject");
    reveal_strlit("discard");
    reveal_strlit("fix");
    reveal_strlit("correct");
    reveal_strlit("corrected");
    reveal_strlit("rewrite");
}

/// A sentence is dropped exactly if the verdict says so. Its text changes only if the verdict is a
/// correction with text, and then to that text without the white space around it; otherwise it stays
/// as it was, whatever text the verdict has.
pub proof fn law_only_corrections_change_the_text(v: QcVerdict, text: Seq<char>)
    ensures
        qc::verdict_text(v, text) is None <==> says_drop(v),
        says_fix(v) && spaces::trim(v.text@).len() > 0 ==> qc::verdict_text(v, text) == Some(
            spaces::trim(v.text@),
        ),
        !says_drop(v) && !(says_fix(v) && spaces::trim(v.text@).len() > 0) ==> qc::verdict_text(
            v,
            text,
        ) == Some(text),
{
    lemma_words();
}

/// What a verdict does to the counters and to the sentences remembered: a dropped sentence is counted
/// and forgotten; any other is remembered with the text that it has then, and counted as corrected or
/// as kept.
pub proof fn law_verdicts_are_counted(c: CheckerView, v: QcVerdict, text: Seq<char>)
    requires
        c.stats.kept < usize::MAX,
        c.stats.fixed < usize::MAX,
        c.stats.dropped < usize::MAX,
        c.stats.fix_rejected < usize::MAX,
        c.context_size >= 1,
    ensures
        ({
            let after = qc::verdict_applied(c, v, text);
            let fixed = says_fix(v) && spaces::trim(v.text@).len() > 0;
            &&& after.context_size == c.context_size
            &&& after.stats.total == c.stats.total && after.stats.failed == c.stats.failed
            &&& after.stats.dropped == c.stats.dropped + (if says_drop(v) {
                1int
            } else {
                0
            })
            &&& after.stats.fixed == c.stats.fixed + (if fixed {
                1int
            } else {
                0
            })
            &&& after.stats.kept == c.stats.kept + (if says_drop(v) || fixed {
                0int
            } else {
                1
            })
            &&& after.stats.fix_rejected == c.stats.fix_rejected + (if says_fix(v) && !fixed {
                1int
            } else {
                0
            })
            &&& says_drop(v) ==> after.history == c.history
            &&& !says_drop(v) ==> after.history.len() > 0 && after.history.last() == (if fixed {
                spaces::trim(v.text@)
            } else {
                text
            })
        }),
{
    lemma_words();
}

/// One more sentence is remembered as the last; what was remembered stays before it in order, but for
/// the oldest, which go if there are more than `context_size` then.
pub proof fn law_the_oldest_are_forgotten(
    history: Seq<Seq<char>>,
    text: Seq<char>,
    context_size: int,
)
    requires
        context_size >= 1,
    ensures
        ({
            let after = qc::remembered(history, text, context_size);
            &&& after.len() == (if history.len() + 1 > context_size {
                context_size
            } else {
                history.len() as int + 1
            })
            &&& after.last() == text
            &&& forall|i: int|
                0 <= i < after.len() - 1 ==> #[trigger] after[i] == history[history.len()
                    - after.len() + 1 + i]
        }),
{
}

/// The sentences remembered are shown to the model one to a line, numbered from one, the oldest
/// first.
pub proof fn law_history_is_shown_in_order(history: Seq<Seq<char>>)
    ensures
        history.len() == 0 ==> qc::history_lines(history) == "（这是第一句，暂无上文）"@,
        history.len() == 1 ==> qc::history_lines(history) == "1. "@ + history[0],
        history.len() > 1 ==> qc::history_lines(history) == qc::history_lines(history.drop_last())
            + "\n"@ + number::decimal(history.len()) + ". "@ + history.last(),
{
    let all = Seq::new(history.len(), |i: int| qc::history_line(history, i));
    if history.len() == 1 {
        reveal_strlit("1. ");
        reveal_strlit(". ");
        assert(number::decimal(1) =~= seq!['1']);
        assert(number::decimal(1) + ". "@ =~= "1. "@);
    }
    if history.len() > 1 {
        let front = history.drop_last();
        let some = Seq::new(front.len(), |i: int| qc::history_line(front, i));
        assert(all.drop_last() =~= some) by {
            assert forall|i: int| 0 <= i < some.len() implies all[i] == some[i] by {
                assert(front[i] == history[i]);
            }
        }
        let head = pieces::join(some, "\n"@) + "\n"@;
        assert(all.last() == number::decimal(history.len()) + ". "@ + history.last());
        assert(head + (number::decimal(history.len()) + ". "@ + history.last()) =~= head
            + number::decimal(history.len()) + ". "@ + history.last());
    }
}

/// The model is shown the sentences remembered, the sentence itself and how long it lasts, under
/// these names and no others.
pub proof fn law_a_check_shows_three_things(
    history: Seq<Seq<char>>,
    text: Seq<char>,
    duration: Seq<char>,
)
    ensures
        ({
            let vars = qc::qc_vars(history, text, duration);
            &&& vars.dom() =~= set!["context"@, "text"@, "duration"@]
            &&& vars["context"@] == qc::history_lines(history)
            &&& vars["text"@] == text
            &&& vars["duration"@] == duration
        }),
{
    reveal_strlit("context");
    reveal_strlit("text");
    reveal_strlit("duration");
    assert("context"@.len() == 7 && "text"@.len() == 4 && "duration"@.len() == 8);
}

/// A quote mark round a word: one of " ' “ ”.
pub open spec fn quote_at(s: Seq<char>, i: int) -> bool {
    s[i] == '"' || s[i] == '\'' || s[i] == '“' || s[i] == '”'
}

/// A decision is read without the white space around it, without the quote marks inside that, and in
/// lower case.
pub proof fn law_decisions_are_read_loosely(
    before: Seq<char>,
    open: Seq<char>,
    word: Seq<char>,
    close: Seq<char>,
    after: Seq<char>,
)
    requires
        spaces::all_white(before),
        spaces::all_white(after),
        forall|i: int| 0 <= i < open.len() ==> #[trigger] quote_at(open, i),
        forall|i: int| 0 <= i < close.len() ==> #[trigger] quote_at(close, i),
        word.len() > 0,
        !spaces::is_white(word[0]) && !spaces::is_white(word.last()),
        !quote_at(word, 0) && !quote_at(word, word.len() - 1),
    ensures
        ({
            let read = types::normalized(before + (open + word + close) + after);
            &&& read.len() == word.len()
            &&& forall|i: int|
                0 <= i < word.len() ==> #[trigger] read[i] as int == (if 'A' <= word[i] <= 'Z' {
                    word[i] as int + 32
                } else {
                    word[i] as int
                })
        }),
{
    let core = open + word + close;
    assert(core.len() > 0);
    assert(!spaces::is_white(core[0])) by {
        if open.len() > 0 {
            assert(quote_at(open, 0));
            assert(core[0] == open[0]);
        } else {
            assert(core[0] == word[0]);
        }
    }
    assert(!spaces::is_white(core.last())) by {
        if close.len() > 0 {
            assert(quote_at(close, close.len() - 1));
            assert(core.last() == close.last());
        } else {
            assert(core.last() == word.last());
        }
    }
    space_laws::law_trimming_takes_white_space_only(before, core, after);
    lemma_strip_start(open, word + close);
    assert(open + (word + close) =~= core);
    assert((word + close)[0] == word[0]);
    lemma_strip_end(word, close);
}

proof fn lemma_strip_start(open: Seq<char>, rest: Seq<char>)
    requires
        forall|i: int| 0 <= i < open.len() ==> #[trigger] quote_at(open, i),
        rest.len() > 0,
        !quote_at(rest, 0),
    ensures
        types::strip_quotes_start(open + rest) == rest,
    decreases open.len(),
{
    let all = open + rest;
    if open.len() > 0 {
        assert(quote_at(open, 0));
        assert(all[0] == open[0]);
        assert(all.drop_first() =~= open.drop_first() + rest);
        let b = open.drop_first();
        assert forall|i: int| 0 <= i < b.len() implies #[trigger] quote_at(b, i) by {
            assert(quote_at(open, i + 1));
        }
        lemma_strip_start(b, rest);
    } else {
        assert(all =~= rest);
    }
}

proof fn lemma_strip_end(word: Seq<char>, close: Seq<char>)
    requires
        forall|i: int| 0 <= i < close.len() ==> #[trigger] quote_at(close, i),
        word.len() > 0,
        !quote_at(word, word.len() - 1),
    ensures
        types::strip_quotes_end(word + close) == word,
    decreases close.len(),
{
    let all = word + close;
    if close.len() > 0 {
        assert(quote_at(close, close.len() - 1));
        assert(all.last() == close.last());
        assert(all.drop_last() =~= word + close.drop_last());
        let b = close.drop_last();
        assert forall|i: int| 0 <= i < b.len() implies #[trigger] quote_at(b, i) by {
            assert(quote_at(close, i));
        }
        lemma_strip_end(word, b);
    } else {
        assert(all =~= word);
    }
}

/// A sentence without a verdict is kept and remembered as it is, and counted as kept and as failed.
pub proof fn law_no_verdict_keeps_the_sentence(c: CheckerView, text: Seq<char>)
    requires
        c.stats.kept < usize::MAX,
        c.stats.failed < usize::MAX,
        c.context_size >= 1,
    ensures
        ({
            let after = qc::kept_open(c, text);
            &&& after.history.last() == text
            &&& after.stats == (QcStats {
                kept: (c.stats.kept + 1) as usize,
                failed: (c.stats.failed + 1) as usize,
                ..c.stats
            })
        }),
{
}

/// A new checker remembers as many sentences as it is told to, one at least; it has none yet, and has
/// counted nothing.
pub proof fn law_a_checker_begins_empty(context_size: int)
    ensures
        context_size >= 1 ==> qc::fresh(context_size).context_size == context_size,
        context_size < 1 ==> qc::fresh(context_size).context_size == 1,
        qc::fresh(context_size).history.len() == 0,
        qc::fresh(context_size).stats == (QcStats {
            total: 0,
            kept: 0,
            fixed: 0,
            dropped: 0,
            failed: 0,
            fix_rejected: 0,
            drop_rejected: 0,
            retries: 0,
        }),
{
}

/// The prompt for a sentence is the template `qc_segment.txt` with what the model is shown.
pub proof fn law_a_check_has_its_template(
    templates: Map<Seq<char>, Seq<char>>,
    history: Seq<Seq<char>>,
    text: Seq<char>,
    duration: Seq<char>,
)
    ensures
        qc::qc_prompt(templates, history, text, duration) == prompt::rendered(
            templates,
            "qc_segment.txt"@,
            map![
                "context"@ => qc::history_lines(history),
                "text"@ => text,
                "duration"@ => duration,
            ],
        ),
{
    assert(qc::qc_vars(history, text, duration) =~= map![
        "context"@ => qc::history_lines(history),
        "text"@ => text,
        "duration"@ => duration,
    ]);
}

/// A sentence is in the total from when it is taken, and nothing else changes by that.
pub proof fn law_taken_sentences_are_in_the_total(c: CheckerView)
    requires
        c.stats.total < usize::MAX,
    ensures
        qc::counted(c).stats == (QcStats { total: (c.stats.total + 1) as usize, ..c.stats }),
        qc::counted(c).history == c.history,
        qc::counted(c).context_size == c.context_size,
{
}

/// The model is asked about a sentence twice if its first reply cannot be used, and not again.
pub proof fn law_sentences_are_asked_about_twice(attempt: int)
    requires
        attempt >= 1,
    ensures
        qc::asked_again(attempt) <==> attempt == 1,
{
}

/// A sentence is asked about with the sentences remembered before it; if there is no prompt, it is
/// kept as it is.
pub proof fn law_sentences_are_asked_about_in_context(
    c: CheckerView,
    templates: Map<Seq<char>, Seq<char>>,
    text: Seq<char>,
    duration: Seq<char>,
)
    ensures
        ({
            let (after, asked) = qc::taken(c, templates, text, duration);
            &&& asked == qc::qc_prompt(templates, c.history, text, duration)
            &&& asked is Some ==> after == qc::counted(c)
            &&& asked is None ==> after == qc::kept_open(qc::counted(c), text)
        }),
{
}

/// A verdict changes nothing of a sentence but its text, and that only if it is a correction with
/// text.
pub proof fn law_verdicts_leave_the_times(v: QcVerdict, s: SegmentView)
    ensures
        ({
            let after = qc::verdict_cue(v, s);
            &&& after.index == s.index
            &&& after.start_ms == s.start_ms && after.end_ms == s.end_ms
            &&& says_fix(v) && !spaces::all_white(v.text@) ==> after.text == spaces::trim(v.text@)
            &&& !(says_fix(v) && !spaces::all_white(v.text@)) ==> after.text == s.text
        }),
{
    lemma_words();
    spaces::lemma_blank(v.text@);
}

} // verus!
