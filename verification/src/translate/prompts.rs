//! The prompts for summaries, translations and reviews.

use vstd::prelude::*;
use vstd::string::StringExecFns;

use crate::prompt;
use crate::prompt::PromptStore;
use crate::text::json::json_text;
use crate::text::number::push_usize;
use crate::text::pieces::join_texts;
use crate::text::spaces::trimmed;
use crate::text::table::TextMap;
use crate::text::{chars, json, number, pieces, spaces};
use crate::translate::ask::STRICT_HINT;
use crate::types;
use crate::types::{ContextView, GlobalContext, SegmentView, SubtitleSegment};

verus! {

/// What a translation is made with.
pub struct TranslateConfig {
    /// The tokens that the model's context holds.
    pub n_ctx: usize,
    pub batch_size: usize,
    pub batch_chars: usize,
    /// How many translated subtitles go with a batch as context.
    pub context_size: usize,
    pub max_retries: usize,
    pub translate_tokens_per_item: usize,
    pub summary_chunk_tokens: usize,
    pub seed: u32,
    pub source_lang: String,
    pub target_lang: String,
    /// Whether translations are reviewed.
    pub review_enabled: bool,
    /// The script that must not be left in a translation; `none` if any may.
    pub residual_script: String,
}

pub open spec fn no_vars() -> Map<Seq<char>, Seq<char>> {
    Map::empty()
}

/// The variables of the prompt for a summary.
pub open spec fn summary_vars(transcript: Seq<char>) -> Map<Seq<char>, Seq<char>> {
    no_vars().insert("transcript"@, transcript)
}

/// The prompt for a summary, if the template can be rendered.
pub open spec fn summary_prompt(
    templates: Map<Seq<char>, Seq<char>>,
    transcript: Seq<char>,
) -> Option<Seq<char>> {
    prompt::rendered(templates, "extract_context.txt"@, summary_vars(transcript))
}

pub open spec fn view_of(r: Option<String>) -> Option<Seq<char>> {
    match r {
        Some(t) => Some(t@),
        None => None,
    }
}

/// The rendered template, if it can be rendered.
fn rendering(store: &PromptStore, file: &str, vars: &TextMap) -> (r: Option<String>)
    ensures
        view_of(r) == prompt::rendered(store.templates@, file@, vars@),
{
    match store.render(file, vars) {
        Ok(t) => Some(t),
        Err(_) => None,
    }
}

/// The prompt for a summary of a transcript.
pub fn build_summary_prompt(store: &PromptStore, transcript: &str) -> (r: Option<String>)
    ensures
        view_of(r) == summary_prompt(store.templates@, transcript@),
{
    let mut vars = TextMap::new();
    vars.insert("transcript", transcript);
    rendering(store, "extract_context.txt", &vars)
}

/// The summary as the model sees it.
pub open spec fn summary_line(summary: Seq<char>) -> Seq<char> {
    let s = spaces::trim(summary);
    if s.len() == 0 {
        "（无）"@
    } else {
        s
    }
}

/// The subtitles that go with a batch as the model sees them.
pub open spec fn context_line(context: Seq<SegmentView>) -> Seq<char> {
    if context.len() == 0 {
        "（无）"@
    } else {
        types::compact_list(context)
    }
}

/// The variables of the prompt for a batch.
pub open spec fn translate_vars(
    cfg: TranslateConfig,
    known: ContextView,
    context: Seq<SegmentView>,
    batch: Seq<SegmentView>,
) -> Map<Seq<char>, Seq<char>> {
    no_vars().insert("source_lang"@, cfg.source_lang@).insert(
        "target_lang"@,
        cfg.target_lang@,
    ).insert("summary"@, summary_line(known.summary)).insert(
        "glossary"@,
        types::glossary_lines(known.glossary),
    ).insert("context"@, context_line(context)).insert("batch"@, types::compact_list(batch))
}

/// The prompt for a batch, if the template can be rendered.
pub open spec fn translate_prompt(
    cfg: TranslateConfig,
    templates: Map<Seq<char>, Seq<char>>,
    known: ContextView,
    context: Seq<SegmentView>,
    batch: Seq<SegmentView>,
) -> Option<Seq<char>> {
    prompt::rendered(
        templates,
        "translate_batch.txt"@,
        translate_vars(cfg, known, context, batch),
    )
}

/// The prompt for a batch: what is known of the film, the subtitles before the batch, and the batch.
pub fn build_translate_prompt(
    cfg: &TranslateConfig,
    store: &PromptStore,
    known: &GlobalContext,
    context: &[SubtitleSegment],
    batch: &[SubtitleSegment],
) -> (r: Option<String>)
    ensures
        view_of(r) == translate_prompt(
            *cfg,
            store.templates@,
            known@,
            types::cues(context@),
            types::cues(batch@),
        ),
{
    let summary = trimmed(known.summary.as_str());
    let summary = if summary.as_str().is_empty() {
        "（无）".to_string()
    } else {
        summary
    };
    assert(types::cues(context@).len() == context@.len());
    let before = if context.len() == 0 {
        "（无）".to_string()
    } else {
        SubtitleSegment::compact_json_list(context)
    };
    let mut vars = TextMap::new();
    vars.insert("source_lang", cfg.source_lang.as_str());
    vars.insert("target_lang", cfg.target_lang.as_str());
    vars.insert("summary", summary.as_str());
    vars.insert("glossary", known.glossary_as_text().as_str());
    vars.insert("context", before.as_str());
    vars.insert("batch", SubtitleSegment::compact_json_list(batch).as_str());
    rendering(store, "translate_batch.txt", &vars)
}

/// A subtitle and its translation as the model sees them.
pub open spec fn pair_item(s: SegmentView, t: SegmentView) -> Seq<char> {
    "{\"i\":"@ + number::decimal(s.index as nat) + ",\"s\":"@ + json::json_quoted(s.text)
        + ",\"t\":"@ + json::json_quoted(t.text) + "}"@
}

/// The subtitles at the positions `picks` with their translations, as a JSON array.
pub open spec fn pair_list(
    sources: Seq<SegmentView>,
    translated: Seq<SegmentView>,
    picks: Seq<int>,
) -> Seq<char> {
    "["@ + pieces::join(
        picks.map_values(|p: int| pair_item(sources[p], translated[p])),
        ","@,
    ) + "]"@
}

/// The variables of the prompt for a review.
pub open spec fn review_vars(
    cfg: TranslateConfig,
    known: ContextView,
    pairs: Seq<char>,
) -> Map<Seq<char>, Seq<char>> {
    no_vars().insert("target_lang"@, cfg.target_lang@).insert(
        "glossary"@,
        types::glossary_lines(known.glossary),
    ).insert("pairs"@, pairs)
}

/// The prompt for a review, if the template can be rendered; `strict` for the second round.
pub open spec fn review_prompt(
    cfg: TranslateConfig,
    templates: Map<Seq<char>, Seq<char>>,
    known: ContextView,
    pairs: Seq<char>,
    strict: bool,
) -> Option<Seq<char>> {
    match prompt::rendered(templates, "review_batch.txt"@, review_vars(cfg, known, pairs)) {
        Some(t) => Some(
            if strict {
                t + STRICT_HINT@
            } else {
                t
            },
        ),
        None => None,
    }
}

pub open spec fn positions(picks: Seq<usize>) -> Seq<int> {
    picks.map_values(|p: usize| p as int)
}

/// The subtitles at the positions `picks` with their translations, as a JSON array.
fn pair_text(
    sources: &Vec<SubtitleSegment>,
    translated: &Vec<SubtitleSegment>,
    picks: &Vec<usize>,
) -> (r: String)
    requires
        forall|k: int|
            0 <= k < picks@.len() ==> #[trigger] picks@[k] < sources@.len() && picks@[k]
                < translated@.len(),
    ensures
        r@ == pair_list(types::cues(sources@), types::cues(translated@), positions(picks@)),
{
    let ghost src = types::cues(sources@);
    let ghost out = types::cues(translated@);
    let ghost want = positions(picks@).map_values(|p: int| pair_item(src[p], out[p]));
    let mut items: Vec<String> = Vec::new();
    for k in 0..picks.len()
        invariant
            src == types::cues(sources@),
            out == types::cues(translated@),
            want == positions(picks@).map_values(|p: int| pair_item(src[p], out[p])),
            forall|k: int|
                0 <= k < picks@.len() ==> #[trigger] picks@[k] < sources@.len() && picks@[k]
                    < translated@.len(),
            items@.len() == k,
            forall|j: int| 0 <= j < k ==> #[trigger] items@[j]@ == want[j],
    {
        let p: usize = picks[k];
        let mut item = "{\"i\":".to_string();
        push_usize(&mut item, sources[p].index);
        item.append(",\"s\":");
        item.append(json_text(sources[p].text.as_str()).as_str());
        item.append(",\"t\":");
        item.append(json_text(translated[p].text.as_str()).as_str());
        item.append("}");
        assert(item@ == pair_item(src[p as int], out[p as int]));
        items.push(item);
    }
    assert(chars::views(items@) =~= want);
    let mut r = "[".to_string();
    r.append(join_texts(&items, ",").as_str());
    r.append("]");
    r
}

/// The prompt for a review of the translations at the positions `picks`.
pub fn build_review_prompt(
    cfg: &TranslateConfig,
    store: &PromptStore,
    known: &GlobalContext,
    sources: &Vec<SubtitleSegment>,
    translated: &Vec<SubtitleSegment>,
    picks: &Vec<usize>,
    strict: bool,
) -> (r: Option<String>)
    requires
        forall|k: int|
            0 <= k < picks@.len() ==> #[trigger] picks@[k] < sources@.len() && picks@[k]
                < translated@.len(),
    ensures
        view_of(r) == review_prompt(
            *cfg,
            store.templates@,
            known@,
            pair_list(types::cues(sources@), types::cues(translated@), positions(picks@)),
            strict,
        ),
{
    let pairs = pair_text(sources, translated, picks);
    let mut vars = TextMap::new();
    vars.insert("target_lang", cfg.target_lang.as_str());
    vars.insert("glossary", known.glossary_as_text().as_str());
    vars.insert("pairs", pairs.as_str());
    match rendering(store, "review_batch.txt", &vars) {
        Some(mut t) => {
            if strict {
                t.append(STRICT_HINT);
            }
            Some(t)
        },
        None => None,
    }
}

} // verus!
