//! What the settings make of what is asked for, and what files are called.

use vstd::prelude::*;

use crate::config::models;
use crate::config::paths;
use crate::config::settings;
use crate::config::settings::{
    Args, Config, ConfigError, Correction, ModelResource, Resource, Resources,
};
use crate::llm::{bracket_laws, reply};
use crate::text::{piece_laws, spaces};
use crate::types;

verus! {

/// A setting within its limits is as asked for. A context of fewer than 2048 tokens is taken for one
/// of 2048, a batch of no subtitles for one, and one of fewer than 64 characters for one of 1200; a
/// memory of no sentence is taken for one.
pub proof fn law_settings_are_as_asked_for(cfg: Config, args: Args, found: Resources)
    requires
        settings::follows(cfg, args, found),
    ensures
        args.ctx_size >= 2048 ==> cfg.ctx_size == args.ctx_size,
        args.ctx_size < 2048 ==> cfg.ctx_size == 2048,
        64 <= args.prefill_batch <= cfg.ctx_size ==> cfg.prefill_batch == args.prefill_batch,
        args.prefill_batch < 64 || args.prefill_batch > cfg.ctx_size ==> cfg.prefill_batch == 2048,
        args.batch_size >= 1 ==> cfg.batch_size == args.batch_size,
        args.batch_size < 1 ==> cfg.batch_size == 1,
        args.batch_chars >= 64 ==> cfg.batch_chars == args.batch_chars,
        args.batch_chars < 64 ==> cfg.batch_chars == 1200,
        args.qc_context >= 1 ==> cfg.qc_context == args.qc_context,
        args.qc_context < 1 ==> cfg.qc_context == 1,
        cfg.context_size == args.context_size,
        cfg.seed == args.seed,
        cfg.gpu_layers == args.gpu_layers,
        cfg.max_line_width == args.max_line_width,
        cfg.qc_keep_min_chars == args.qc_keep_min_chars,
        cfg.source_lang@ == args.source_lang@,
        cfg.target_lang@ == args.target_lang@,
        cfg.qc_enabled != args.no_qc,
        cfg.layout_enabled != args.no_layout,
        cfg.from_srt == args.from_srt,
{
}

/// A setting with a lower limit is as asked for, or at the limit if that is more.
pub proof fn law_low_settings_are_raised(cfg: Config, args: Args, found: Resources)
    requires
        settings::follows(cfg, args, found),
    ensures
        cfg.max_retries >= args.max_retries && cfg.max_retries >= 1,
        cfg.max_retries == args.max_retries || cfg.max_retries == 1,
        cfg.summary_chunk_tokens >= args.summary_chunk_tokens && cfg.summary_chunk_tokens >= 256,
        cfg.summary_chunk_tokens == args.summary_chunk_tokens || cfg.summary_chunk_tokens == 256,
        cfg.translate_tokens_per_item >= args.translate_tokens_per_item,
        cfg.translate_tokens_per_item >= 16,
        cfg.translate_tokens_per_item == args.translate_tokens_per_item
            || cfg.translate_tokens_per_item == 16,
        cfg.asr_threads >= args.asr_threads && cfg.asr_threads >= 1,
        cfg.asr_threads == args.asr_threads || cfg.asr_threads == 1,
        cfg.asr_max_new_tokens >= args.asr_max_new_tokens && cfg.asr_max_new_tokens >= 16,
        cfg.asr_max_new_tokens == args.asr_max_new_tokens || cfg.asr_max_new_tokens == 16,
        cfg.asr_max_total_len >= args.asr_max_total_len && cfg.asr_max_total_len >= 64,
        cfg.asr_max_total_len == args.asr_max_total_len || cfg.asr_max_total_len == 64,
        cfg.qc_max_tokens >= args.qc_max_tokens && cfg.qc_max_tokens >= 64,
        cfg.qc_max_tokens == args.qc_max_tokens || cfg.qc_max_tokens == 64,
        1 <= args.qc_retries <= 5 ==> cfg.qc_retries == args.qc_retries,
        args.qc_retries < 1 ==> cfg.qc_retries == 1,
        args.qc_retries > 5 ==> cfg.qc_retries == 5,
{
}

/// A setting is told to be out of range exactly if it is, and once.
pub proof fn law_corrections_are_told(args: Args)
    ensures
        ({
            let notes = settings::corrections(args);
            &&& notes.contains(Correction::CtxSize) <==> args.ctx_size < 2048
            &&& notes.contains(Correction::PrefillBatch) <==> args.prefill_batch < 64
                || args.prefill_batch > args.ctx_size && args.prefill_batch > 2048
            &&& notes.contains(Correction::BatchSize) <==> args.batch_size == 0
            &&& notes.contains(Correction::BatchChars) <==> args.batch_chars < 64
            &&& notes.contains(Correction::QcContext) <==> args.qc_context == 0
            &&& notes.no_duplicates()
        }),
{
    let a = settings::note(args.ctx_size < 2048, Correction::CtxSize);
    let b = settings::note(
        args.prefill_batch < 64 || args.prefill_batch > settings::ctx_of(args),
        Correction::PrefillBatch,
    );
    let c = settings::note(args.batch_size < 1, Correction::BatchSize);
    let d = settings::note(args.batch_chars < 64, Correction::BatchChars);
    let e = settings::note(args.qc_context < 1, Correction::QcContext);
    lemma_contains_add(a, b);
    lemma_contains_add(a + b, c);
    lemma_contains_add(a + b + c, d);
    lemma_contains_add(a + b + c + d, e);
    lemma_note(args.ctx_size < 2048, Correction::CtxSize);
    lemma_note(
        args.prefill_batch < 64 || args.prefill_batch > settings::ctx_of(args),
        Correction::PrefillBatch,
    );
    lemma_note(args.batch_size < 1, Correction::BatchSize);
    lemma_note(args.batch_chars < 64, Correction::BatchChars);
    lemma_note(args.qc_context < 1, Correction::QcContext);
}

proof fn lemma_note(out: bool, what: Correction)
    ensures
        forall|x: Correction| #[trigger]
            settings::note(out, what).contains(x) <==> out && x == what,
        settings::note(out, what).no_duplicates(),
{
    let list = settings::note(out, what);
    assert(out ==> list[0] == what);
}

proof fn lemma_contains_add(a: Seq<Correction>, b: Seq<Correction>)
    ensures
        forall|x: Correction| #[trigger] (a + b).contains(x) <==> a.contains(x) || b.contains(x),
        a.no_duplicates() && b.no_duplicates() && (forall|x: Correction|
            a.contains(x) ==> !#[trigger] b.contains(x)) ==> (a + b).no_duplicates(),
{
    let all = a + b;
    assert forall|x: Correction| #[trigger] all.contains(x) <==> a.contains(x) || b.contains(x) by {
        if a.contains(x) {
            let k = choose|k: int| 0 <= k < a.len() && a[k] == x;
            assert(all[k] == x);
        }
        if b.contains(x) {
            let k = choose|k: int| 0 <= k < b.len() && b[k] == x;
            assert(all[a.len() + k] == x);
        }
        if all.contains(x) {
            let k = choose|k: int| 0 <= k < all.len() && all[k] == x;
            if k < a.len() {
                assert(a[k] == x);
            } else {
                assert(b[k - a.len()] == x);
            }
        }
    }
    if a.no_duplicates() && b.no_duplicates() && (forall|x: Correction|
        a.contains(x) ==> !#[trigger] b.contains(x)) {
        assert forall|i: int, j: int| 0 <= i < all.len() && 0 <= j < all.len() && i
            != j implies all[i] != all[j] by {
            if i < a.len() && j >= a.len() {
                assert(a.contains(a[i]) && b.contains(b[j - a.len()]));
            }
            if j < a.len() && i >= a.len() {
                assert(a.contains(a[j]) && b.contains(b[i - a.len()]));
            }
        }
    }
}

/// A file is looked for beside the program exactly if its path is not absolute and nothing is there,
/// but something is beside the program.
pub proof fn law_resources_are_where_they_are_said_to_be(r: Resource)
    ensures
        r.absolute || r.exists || !r.beside_exists ==> r.resolved() == r.path@ && r.resolved_usable()
            == r.usable,
        !r.absolute && !r.exists && r.beside_exists ==> r.resolved() == r.beside_exe@
            && r.resolved_usable() == r.beside_usable,
{
}

/// There are settings exactly if there are prompts and a language model; missing prompts are told
/// first.
pub proof fn law_prompts_and_a_model_are_needed(found: Resources)
    ensures
        !found.prompts.resolved_usable() <==> settings::config_error(found) == Some(
            ConfigError::NoPrompts,
        ),
        found.prompts.resolved_usable() ==> match found.llm {
            ModelResource::Given(r) => settings::config_error(found) == (if r.resolved_usable() {
                None
            } else {
                Some(ConfigError::NoModelThere)
            }),
            ModelResource::Searched(p) => settings::config_error(found) == (if p is Some {
                None
            } else {
                Some(ConfigError::NoModelFound)
            }),
        },
{
}

/// A file name is its stem, a dot and its extension, which has no dot in it. A name without a dot
/// after its first character has no extension.
pub proof fn law_names_are_stem_and_extension(stem: Seq<char>, ext: Seq<char>)
    requires
        piece_laws::lacks(ext, '.'),
        stem.len() > 0,
    ensures
        paths::stem_of(stem + seq!['.'] + ext) == stem,
        stem + seq!['.'] + ext != seq!['.', '.'] ==> paths::extension_of(stem + seq!['.'] + ext)
            == Some(ext),
        paths::stem_of(ext) == ext && paths::extension_of(ext) is None,
        paths::stem_of(seq!['.'] + ext) == seq!['.'] + ext,
        paths::extension_of(seq!['.'] + ext) is None,
{
    let name = stem + seq!['.'] + ext;
    let n = stem.len() as int;
    assert(name[n] == '.');
    assert forall|j: int| n < j < name.len() implies #[trigger] name[j] != '.' by {
        assert(name[j] == ext[j - n - 1]);
    }
    bracket_laws::lemma_last_is(name, '.', n);
    assert(name.take(n) =~= stem);
    assert(name.skip(n + 1) =~= ext);
    lemma_no_dot(ext);
    let hidden = seq!['.'] + ext;
    assert(hidden[0] == '.');
    assert forall|j: int| 0 < j < hidden.len() implies #[trigger] hidden[j] != '.' by {
        assert(hidden[j] == ext[j - 1]);
    }
    bracket_laws::lemma_last_is(hidden, '.', 0);
}

proof fn lemma_no_dot(s: Seq<char>)
    requires
        piece_laws::lacks(s, '.'),
    ensures
        reply::last_of(s, '.') is None,
    decreases s.len(),
{
    if s.len() > 0 {
        let front = s.drop_last();
        assert forall|j: int| 0 <= j < front.len() implies #[trigger] front[j] != '.' by {
            assert(front[j] == s[j]);
        }
        lemma_no_dot(front);
        assert(s[s.len() - 1] != '.');
    }
}

/// A file is a model exactly by its extension: the letters g, g, u, f, each in capitals or not.
pub proof fn law_models_are_known_by_extension(stem: Seq<char>, ext: Seq<char>)
    requires
        piece_laws::lacks(ext, '.'),
        stem.len() > 0,
        ext.len() > 0,
    ensures
        models::is_model(stem + seq!['.'] + ext) <==> {
            &&& ext.len() == 4
            &&& ext[0] == 'g' || ext[0] == 'G'
            &&& ext[1] == 'g' || ext[1] == 'G'
            &&& ext[2] == 'u' || ext[2] == 'U'
            &&& ext[3] == 'f' || ext[3] == 'F'
        },
        !models::is_model(ext) && !models::is_model(seq!['.'] + ext),
{
    law_names_are_stem_and_extension(stem, ext);
    let name = stem + seq!['.'] + ext;
    assert(name.len() > 2);
    let low = ext.map_values(|c: char| types::ascii_lower(c));
    reveal_strlit("gguf");
    let want = "gguf"@;
    assert(want.len() == 4 && want[0] == 'g' && want[1] == 'g' && want[2] == 'u' && want[3] == 'f');
    lemma_letter('g', 'G');
    lemma_letter('u', 'U');
    lemma_letter('f', 'F');
    if low == want {
        assert(low[0] == types::ascii_lower(ext[0]) && low[1] == types::ascii_lower(ext[1]));
        assert(low[2] == types::ascii_lower(ext[2]) && low[3] == types::ascii_lower(ext[3]));
    }
    if ext.len() == 4 && (ext[0] == 'g' || ext[0] == 'G') && (ext[1] == 'g' || ext[1] == 'G') && (
    ext[2] == 'u' || ext[2] == 'U') && (ext[3] == 'f' || ext[3] == 'F') {
        assert(low =~= want);
    }
}

proof fn lemma_letter(small: char, capital: char)
    requires
        'a' <= small <= 'z',
        small as int == capital as int + 32,
    ensures
        forall|c: char| #[trigger]
            types::ascii_lower(c) == small <==> c == small || c == capital,
{
    assert forall|c: char| #[trigger] types::ascii_lower(c) == small implies c == small || c
        == capital by {
        if 'A' <= c <= 'Z' {
            assert(types::ascii_lower(c) as int == c as int + 32);
        }
    }
}

/// Output goes where it is asked for, or else beside its input, or else, where the input is not in a
/// directory, to the current one.
pub proof fn law_output_goes_where_it_is_asked_for(wanted: Seq<char>, parent: Seq<char>)
    ensures
        paths::output_dir(Some(wanted), Some(parent)) == wanted,
        paths::output_dir(Some(wanted), None) == wanted,
        parent.len() > 0 ==> paths::output_dir(None, Some(parent)) == parent,
        parent.len() == 0 ==> paths::output_dir(None, Some(parent)) == "."@,
        paths::output_dir(None, None) == "."@,
{
}

/// The files of the settings are where they were found; the model is the one that was given, or else
/// the one that was found by searching. Words for recognition lose the white space around them.
pub proof fn law_settings_name_what_was_found(cfg: Config, args: Args, found: Resources)
    requires
        settings::follows(cfg, args, found),
        settings::config_error(found) is None,
    ensures
        cfg.prompts_dir@ == found.prompts.resolved(),
        cfg.asr_model_dir@ == found.asr.resolved(),
        cfg.vad_model@ == found.vad.resolved(),
        match found.llm {
            ModelResource::Given(r) => cfg.llm_model@ == r.resolved(),
            ModelResource::Searched(p) => p is Some && cfg.llm_model@ == p.unwrap()@,
        },
        cfg.asr_hotwords@ == spaces::trim(args.asr_hotwords@),
        paths::text_view(cfg.output_dir) == paths::text_view(args.output_dir),
{
}

} // verus!
