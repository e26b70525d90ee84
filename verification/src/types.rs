//! Subtitles, glossaries, verdicts and counters.

use vstd::prelude::*;
use vstd::string::StringExecFns;

use crate::text::chars::{chars_of, same_chars, string_of};
use crate::text::json::json_text;
use crate::text::number::push_usize;
use crate::text::pieces::join_texts;
use crate::text::spaces::{is_blank, trim_of};
use crate::text::{chars, json, number, pieces, spaces};

verus! {

/// One subtitle; times are in milliseconds.
#[derive(Debug)]
pub struct SubtitleSegment {
    pub index: usize,
    pub start_ms: u64,
    pub end_ms: u64,
    pub text: String,
}

/// What a subtitle says and when.
pub struct SegmentView {
    pub index: int,
    pub start_ms: int,
    pub end_ms: int,
    pub text: Seq<char>,
}

impl View for SubtitleSegment {
    type V = SegmentView;

    open spec fn view(&self) -> SegmentView {
        SegmentView {
            index: self.index as int,
            start_ms: self.start_ms as int,
            end_ms: self.end_ms as int,
            text: self.text@,
        }
    }
}

/// The views of a list of subtitles.
pub open spec fn cues(list: Seq<SubtitleSegment>) -> Seq<SegmentView> {
    list.map_values(|s: SubtitleSegment| s@)
}

impl Clone for SubtitleSegment {
    fn clone(&self) -> (r: Self)
        ensures
            r == *self,
    {
        SubtitleSegment {
            index: self.index,
            start_ms: self.start_ms,
            end_ms: self.end_ms,
            text: self.text.clone(),
        }
    }
}

/// One subtitle as the model sees it: its number and its text, no times.
pub open spec fn compact_item(s: SegmentView) -> Seq<char> {
    "{\"i\":"@ + number::decimal(s.index as nat) + ",\"t\":"@
        + json::json_quoted(s.text) + "}"@
}

/// The subtitles as a JSON array of compact items.
pub open spec fn compact_list(list: Seq<SegmentView>) -> Seq<char> {
    "["@ + pieces::join(list.map_values(|s: SegmentView| compact_item(s)), ","@)
        + "]"@
}

/// How long a subtitle is shown, in milliseconds; not at all if it ends before it starts.
pub open spec fn shown_for(s: SegmentView) -> int {
    if s.end_ms >= s.start_ms {
        s.end_ms - s.start_ms
    } else {
        0
    }
}

impl SubtitleSegment {
    /// How long the subtitle is shown, in milliseconds.
    pub fn duration_ms(&self) -> (d: u64)
        ensures
            d == shown_for(self@),
    {
        self.end_ms.saturating_sub(self.start_ms)
    }

    /// The subtitles as a JSON array of numbers and texts. Times stay on this side.
    pub fn compact_json_list(segments: &[SubtitleSegment]) -> (r: String)
        ensures
            r@ == compact_list(cues(segments@)),
    {
        let mut items: Vec<String> = Vec::new();
        let n: usize = segments.len();
        let ghost want = cues(segments@).map_values(|s: SegmentView| compact_item(s));
        for i in 0..n
            invariant
                n == segments@.len(),
                want == cues(segments@).map_values(|s: SegmentView| compact_item(s)),
                items@.len() == i,
                forall|j: int| 0 <= j < i ==> #[trigger] items@[j]@ == want[j],
        {
            let mut item = "{\"i\":".to_string();
            push_usize(&mut item, segments[i].index);
            item.append(",\"t\":");
            item.append(json_text(segments[i].text.as_str()).as_str());
            item.append("}");
            assert(item@ == want[i as int]);
            items.push(item);
        }
        assert(chars::views(items@) =~= want);
        let mut r = "[".to_string();
        r.append(join_texts(&items, ",").as_str());
        r.append("]");
        r
    }
}

/// One entry of a model's reply: the number of a subtitle and its new text.
#[derive(Debug)]
pub struct TranslateItem {
    pub i: i64,
    pub t: String,
}

pub struct ItemView {
    pub i: int,
    pub t: Seq<char>,
}

impl View for TranslateItem {
    type V = ItemView;

    open spec fn view(&self) -> ItemView {
        ItemView { i: self.i as int, t: self.t@ }
    }
}

/// The views of a list of reply entries.
pub open spec fn entries(list: Seq<TranslateItem>) -> Seq<ItemView> {
    list.map_values(|s: TranslateItem| s@)
}

/// A term and how to render it.
#[derive(Debug)]
pub struct GlossaryItem {
    pub source: String,
    pub target: String,
    pub note: Option<String>,
}

pub struct TermView {
    pub source: Seq<char>,
    pub target: Seq<char>,
    pub note: Option<Seq<char>>,
}

impl View for GlossaryItem {
    type V = TermView;

    open spec fn view(&self) -> TermView {
        TermView {
            source: self.source@,
            target: self.target@,
            note: match self.note {
                Some(n) => Some(n@),
                None => None,
            },
        }
    }
}

/// The views of a glossary.
pub open spec fn terms(list: Seq<GlossaryItem>) -> Seq<TermView> {
    list.map_values(|g: GlossaryItem| g@)
}

/// What is known of the whole film: a summary and a glossary.
#[derive(Debug)]
pub struct GlobalContext {
    pub summary: String,
    pub glossary: Vec<GlossaryItem>,
}

pub struct ContextView {
    pub summary: Seq<char>,
    pub glossary: Seq<TermView>,
}

impl View for GlobalContext {
    type V = ContextView;

    open spec fn view(&self) -> ContextView {
        ContextView { summary: self.summary@, glossary: terms(self.glossary@) }
    }
}

impl Default for GlobalContext {
    fn default() -> (r: Self)
        ensures
            r@.summary.len() == 0,
            r@.glossary.len() == 0,
    {
        GlobalContext { summary: String::new(), glossary: Vec::new() }
    }
}

/// One line of the glossary as the model sees it.
pub open spec fn term_line(g: TermView) -> Seq<char> {
    "- "@ + g.source + " -> "@ + g.target + match g.note {
        Some(n) => "（"@ + n + "）"@,
        None => Seq::empty(),
    }
}

/// The glossary as the model sees it.
pub open spec fn glossary_lines(list: Seq<TermView>) -> Seq<char> {
    if list.len() == 0 {
        "（无）"@
    } else {
        pieces::join(list.map_values(|g: TermView| term_line(g)), "\n"@)
    }
}

/// Whether a glossary already has an entry for this term; white space around terms is ignored.
pub open spec fn has_term(list: Seq<TermView>, source: Seq<char>) -> bool {
    exists|i: int|
        0 <= i < list.len() && spaces::trim(#[trigger] list[i].source)
            == spaces::trim(source)
}

/// `base` with the entries of `extra` for new terms appended in order; entries without a term are
/// passed over.
pub open spec fn merged_terms(base: Seq<TermView>, extra: Seq<TermView>) -> Seq<TermView>
    decreases extra.len(),
{
    if extra.len() == 0 {
        base
    } else {
        let so_far = merged_terms(base, extra.drop_last());
        let g = extra.last();
        if spaces::trim(g.source).len() == 0 || has_term(so_far, g.source) {
            so_far
        } else {
            so_far.push(g)
        }
    }
}

/// `a` completed by `b`: the summary of `a` wins if there is one, and so do its glossary entries.
pub open spec fn merged_context(a: ContextView, b: ContextView) -> ContextView {
    ContextView {
        summary: if a.summary.len() == 0 {
            b.summary
        } else {
            a.summary
        },
        glossary: merged_terms(a.glossary, b.glossary),
    }
}

/// Whether the glossary already has an entry for this term.
pub fn knows_term(list: &Vec<GlossaryItem>, source: &str) -> (b: bool)
    ensures
        b == has_term(terms(list@), source@),
{
    let wanted_chars = chars_of(source);
    let wanted = trim_of(wanted_chars.as_slice());
    let n: usize = list.len();
    for i in 0..n
        invariant
            n == list@.len(),
            wanted@ == spaces::trim(source@),
            forall|j: int|
                0 <= j < i ==> spaces::trim(#[trigger] terms(list@)[j].source)
                    != wanted@,
    {
        let have_chars = chars_of(list[i].source.as_str());
        assert(terms(list@)[i as int].source == list@[i as int].source@);
        if same_chars(trim_of(have_chars.as_slice()), wanted) {
            return true;
        }
    }
    false
}

/// Appends an entry unless its term is blank or known.
fn add_term(list: &mut Vec<GlossaryItem>, g: GlossaryItem)
    ensures
        terms(final(list)@) == merged_terms(terms(old(list)@), seq![g@]),
{
    let ghost one = seq![g@];
    assert(one.drop_last() =~= Seq::<TermView>::empty());
    assert(merged_terms(terms(list@), one.drop_last()) == terms(list@));
    if is_blank(g.source.as_str()) || knows_term(list, g.source.as_str()) {
        return;
    }
    let ghost before = list@;
    list.push(g);
    assert(terms(list@) =~= terms(before).push(g@));
}

/// Appends, in order, the entries whose terms are neither blank nor known.
pub fn add_terms(list: &mut Vec<GlossaryItem>, extra: Vec<GlossaryItem>)
    ensures
        terms(final(list)@) == merged_terms(terms(old(list)@), terms(extra@)),
{
    let ghost base = terms(list@);
    let ghost all = terms(extra@);
    assert(all.take(0) =~= Seq::<TermView>::empty());
    for g in it: extra
        invariant
            it.seq() == extra@,
            all == terms(extra@),
            terms(list@) == merged_terms(base, all.take(it.index() as int)),
    {
        let ghost k = it.index() as int;
        let ghost so_far = terms(list@);
        assert(g@ == all[k]);
        add_term(list, g);
        proof {
            let t = all.take(k + 1);
            assert(t.drop_last() =~= all.take(k));
            let one = seq![all[k]];
            assert(one.drop_last() =~= Seq::<TermView>::empty());
            assert(merged_terms(so_far, one.drop_last()) == so_far);
        }
    }
    assert(all.take(all.len() as int) =~= all);
}

impl GlobalContext {
    /// The glossary as lines of text.
    pub fn glossary_as_text(&self) -> (r: String)
        ensures
            r@ == glossary_lines(self@.glossary),
    {
        if self.glossary.len() == 0 {
            return "（无）".to_string();
        }
        let mut lines: Vec<String> = Vec::new();
        let n: usize = self.glossary.len();
        let ghost want = self@.glossary.map_values(|g: TermView| term_line(g));
        for i in 0..n
            invariant
                n == self.glossary@.len(),
                want == self@.glossary.map_values(|g: TermView| term_line(g)),
                lines@.len() == i,
                forall|j: int| 0 <= j < i ==> #[trigger] lines@[j]@ == want[j],
        {
            let g: &GlossaryItem = &self.glossary[i];
            let mut line = "- ".to_string();
            line.append(g.source.as_str());
            line.append(" -> ");
            line.append(g.target.as_str());
            match &g.note {
                Some(n) => {
                    line.append("（");
                    line.append(n.as_str());
                    line.append("）");
                },
                None => {},
            }
            assert(self@.glossary[i as int] == g@);
            assert(line@ =~= want[i as int]);
            lines.push(line);
        }
        assert(chars::views(lines@) =~= want);
        join_texts(&lines, "\n")
    }

    /// Completes this context with another: what is already here wins.
    pub fn merge(&mut self, other: GlobalContext)
        ensures
            final(self)@ == merged_context(old(self)@, other@),
    {
        if self.summary.as_str().is_empty() {
            self.summary = other.summary;
        }
        add_terms(&mut self.glossary, other.glossary);
    }

    /// Whether there is neither a summary nor a glossary.
    pub fn says_nothing(&self) -> (b: bool)
        ensures
            b == (spaces::trim(self@.summary).len() == 0 && self@.glossary.len() == 0),
    {
        is_blank(self.summary.as_str()) && self.glossary.len() == 0
    }
}

/// What the model said of one recognised sentence.
#[derive(Debug)]
pub struct QcVerdict {
    pub decision: String,
    pub valid: Option<bool>,
    pub text: String,
    pub reason: String,
}

pub open spec fn is_quote_mark(c: char) -> bool {
    c == '"' || c == '\'' || c == '“' || c == '”'
}

/// `s` without the quote marks at its start.
pub open spec fn strip_quotes_start(s: Seq<char>) -> Seq<char>
    decreases s.len(),
{
    if s.len() > 0 && is_quote_mark(s[0]) {
        strip_quotes_start(s.drop_first())
    } else {
        s
    }
}

/// `s` without the quote marks at its end.
pub open spec fn strip_quotes_end(s: Seq<char>) -> Seq<char>
    decreases s.len(),
{
    if s.len() > 0 && is_quote_mark(s.last()) {
        strip_quotes_end(s.drop_last())
    } else {
        s
    }
}

/// An upper-case ASCII letter in lower case; any other character as it is.
pub open spec fn ascii_lower(c: char) -> char {
    if 'A' <= c <= 'Z' {
        (c as u32 + 32) as char
    } else {
        c
    }
}

/// A decision without surrounding white space and quote marks, in lower case.
pub open spec fn normalized(decision: Seq<char>) -> Seq<char> {
    strip_quotes_end(strip_quotes_start(spaces::trim(decision))).map_values(
        |c: char| ascii_lower(c),
    )
}

/// An upper-case ASCII letter in lower case; any other character as it is.
pub fn lower(c: char) -> (r: char)
    ensures
        r == ascii_lower(c),
{
    if 'A' <= c && c <= 'Z' {
        let u: u8 = (c as u32) as u8;
        (u + 32) as char
    } else {
        c
    }
}

fn quote_mark(c: char) -> (b: bool)
    ensures
        b == is_quote_mark(c),
{
    c == '"' || c == '\'' || c == '“' || c == '”'
}

impl QcVerdict {
    /// The decision without surrounding white space and quote marks, in lower case.
    pub fn normalized_decision(&self) -> (r: String)
        ensures
            r@ == normalized(self.decision@),
    {
        let chars = chars_of(self.decision.as_str());
        let t = trim_of(chars.as_slice());
        let mut lo: usize = 0;
        let mut hi: usize = t.len();
        assert(t@.subrange(0, hi as int) =~= t@);
        while lo < hi && quote_mark(t[lo])
            invariant
                lo <= hi == t@.len(),
                strip_quotes_start(t@) == strip_quotes_start(t@.subrange(lo as int, hi as int)),
            decreases hi - lo,
        {
            assert(t@.subrange(lo as int, hi as int).drop_first() =~= t@.subrange(
                lo + 1,
                hi as int,
            ));
            lo = lo + 1;
        }
        let ghost mid = strip_quotes_start(t@);
        assert(mid == t@.subrange(lo as int, hi as int));
        while lo < hi && quote_mark(t[hi - 1])
            invariant
                lo <= hi <= t@.len(),
                strip_quotes_end(mid) == strip_quotes_end(t@.subrange(lo as int, hi as int)),
            decreases hi - lo,
        {
            assert(t@.subrange(lo as int, hi as int).drop_last() =~= t@.subrange(
                lo as int,
                hi - 1,
            ));
            hi = hi - 1;
        }
        let core: &[char] = &t[lo..hi];
        let n: usize = core.len();
        let mut out: Vec<char> = Vec::new();
        for i in 0..n
            invariant
                n == core@.len(),
                out@.len() == i,
                forall|j: int| 0 <= j < i ==> out@[j] == ascii_lower(core@[j]),
        {
            out.push(lower(core[i]));
        }
        assert(out@ =~= core@.map_values(|c: char| ascii_lower(c)));
        string_of(out.as_slice())
    }
}

/// Counters of the sentence check.
#[derive(Debug, Clone, Copy, PartialEq, Eq, Structural)]
pub struct QcStats {
    pub total: usize,
    pub kept: usize,
    pub fixed: usize,
    pub dropped: usize,
    /// Replies that could not be used, so that the sentence was kept as it was.
    pub failed: usize,
    /// Corrections without text, so that the sentence was kept as it was.
    pub fix_rejected: usize,
    /// Removals that were not trusted. Every removal is, so this stays zero.
    pub drop_rejected: usize,
    /// Requests repeated because the model failed. None is: the sentence is kept instead, so this
    /// stays zero.
    pub retries: usize,
}

impl Default for QcStats {
    fn default() -> (r: Self)
        ensures
            r == (QcStats {
                total: 0,
                kept: 0,
                fixed: 0,
                dropped: 0,
                failed: 0,
                fix_rejected: 0,
                drop_rejected: 0,
                retries: 0,
            }),
    {
        QcStats {
            total: 0,
            kept: 0,
            fixed: 0,
            dropped: 0,
            failed: 0,
            fix_rejected: 0,
            drop_rejected: 0,
            retries: 0,
        }
    }
}

pub open spec fn number(n: usize) -> Seq<char> {
    number::decimal(n as nat)
}

impl QcStats {
    /// The counters in one line.
    pub open spec fn summary_text(self) -> Seq<char> {
        "质检 "@ + number(self.total) + " 句：保留 "@ + number(self.kept) + "，纠正 "@ + number(
            self.fixed,
        ) + "，丢弃 "@ + number(self.dropped) + "，解析失败兜底 "@ + number(self.failed)
            + "，纠正被拒 "@ + number(self.fix_rejected) + "，丢弃被拒 "@ + number(
            self.drop_rejected,
        ) + "，重试 "@ + number(self.retries)
    }

    /// The counters in one line.
    pub fn summary(&self) -> (r: String)
        ensures
            r@ == self.summary_text(),
    {
        let mut r = "质检 ".to_string();
        push_usize(&mut r, self.total);
        r.append(" 句：保留 ");
        push_usize(&mut r, self.kept);
        r.append("，纠正 ");
        push_usize(&mut r, self.fixed);
        r.append("，丢弃 ");
        push_usize(&mut r, self.dropped);
        r.append("，解析失败兜底 ");
        push_usize(&mut r, self.failed);
        r.append("，纠正被拒 ");
        push_usize(&mut r, self.fix_rejected);
        r.append("，丢弃被拒 ");
        push_usize(&mut r, self.drop_rejected);
        r.append("，重试 ");
        push_usize(&mut r, self.retries);
        r
    }
}

/// Counters of a localisation run.
#[derive(Debug, Clone, Copy, PartialEq, Eq, Structural)]
pub struct TranslateStats {
    pub segments: usize,
    pub batches: usize,
    /// Requests repeated because the model failed or its reply could not be used.
    pub retries: usize,
    /// Batches that failed for good and kept their source text.
    pub failed_batches: usize,
    /// Subtitles matched by position because their number did not come back.
    pub positional: usize,
    /// Subtitles whose new text is all but the source text.
    pub copied: usize,
    /// Subtitles that ended with their source text.
    pub untranslated: usize,
    /// Subtitles that went through a review.
    pub reviewed: usize,
    /// Subtitles that a review changed.
    pub review_fixed: usize,
    /// Subtitles with source script left after the second review.
    pub residual: usize,
    /// Parts the film was cut into for the summary.
    pub summary_chunks: usize,
    /// Batches cut in half because their request was too long.
    pub splits: usize,
}

impl Default for TranslateStats {
    fn default() -> (r: Self)
        ensures
            r == (TranslateStats {
                segments: 0,
                batches: 0,
                retries: 0,
                failed_batches: 0,
                positional: 0,
                copied: 0,
                untranslated: 0,
                reviewed: 0,
                review_fixed: 0,
                residual: 0,
                summary_chunks: 0,
                splits: 0,
            }),
    {
        TranslateStats {
            segments: 0,
            batches: 0,
            retries: 0,
            failed_batches: 0,
            positional: 0,
            copied: 0,
            untranslated: 0,
            reviewed: 0,
            review_fixed: 0,
            residual: 0,
            summary_chunks: 0,
            splits: 0,
        }
    }
}

impl TranslateStats {
    /// The counters in one line.
    pub open spec fn summary_text(self) -> Seq<char> {
        "翻译 "@ + number(self.segments) + " 条 / "@ + number(self.batches) + " 批：重试 "@
            + number(self.retries) + "，拆分 "@ + number(self.splits) + "，整批失败 "@ + number(
            self.failed_batches,
        ) + "，位置兜底 "@ + number(self.positional) + "，照抄 "@ + number(self.copied)
            + "，未翻译 "@ + number(self.untranslated) + "，自检 "@ + number(self.reviewed)
            + "/修正 "@ + number(self.review_fixed) + "，残留 "@ + number(self.residual)
            + "，摘要分块 "@ + number(self.summary_chunks)
    }

    /// The counters in one line.
    pub fn summary(&self) -> (r: String)
        ensures
            r@ == self.summary_text(),
    {
        let mut r = "翻译 ".to_string();
        push_usize(&mut r, self.segments);
        r.append(" 条 / ");
        push_usize(&mut r, self.batches);
        r.append(" 批：重试 ");
        push_usize(&mut r, self.retries);
        r.append("，拆分 ");
        push_usize(&mut r, self.splits);
        r.append("，整批失败 ");
        push_usize(&mut r, self.failed_batches);
        r.append("，位置兜底 ");
        push_usize(&mut r, self.positional);
        r.append("，照抄 ");
        push_usize(&mut r, self.copied);
        r.append("，未翻译 ");
        push_usize(&mut r, self.untranslated);
        r.append("，自检 ");
        push_usize(&mut r, self.reviewed);
        r.append("/修正 ");
        push_usize(&mut r, self.review_fixed);
        r.append("，残留 ");
        push_usize(&mut r, self.residual);
        r.append("，摘要分块 ");
        push_usize(&mut r, self.summary_chunks);
        r
    }
}

} // verus!
