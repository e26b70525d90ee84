//! Settings from the command line.

use vstd::prelude::*;

use crate::config::paths;
use crate::config::paths::{output_for, InputPath, OutputPath};
use crate::runtime::DevicePref;
use crate::text::spaces;
use crate::text::spaces::trimmed;

verus! {

/// What the user asks for. Times and probabilities are kept by the program itself.
pub struct Args {
    pub files: Vec<String>,
    pub asr_model_dir: String,
    pub vad_model: String,
    pub llm_model: Option<String>,
    pub prompts_dir: String,
    pub device: DevicePref,
    pub lib_dirs: Vec<String>,
    pub gpu_layers: i32,
    pub ctx_size: u32,
    pub prefill_batch: u32,
    pub seed: u32,
    pub max_retries: usize,
    pub summary_chunk_tokens: usize,
    pub translate_tokens_per_item: usize,
    pub asr_threads: i32,
    pub asr_hotwords: String,
    pub asr_max_new_tokens: i32,
    pub asr_max_total_len: i32,
    pub no_qc: bool,
    pub qc_context: usize,
    pub qc_retries: usize,
    pub qc_max_tokens: u32,
    pub qc_keep_min_chars: usize,
    pub batch_size: usize,
    pub batch_chars: usize,
    pub context_size: usize,
    pub target_lang: String,
    pub source_lang: String,
    pub max_line_width: usize,
    pub no_layout: bool,
    pub from_srt: bool,
    pub output_dir: Option<String>,
    pub log_file: Option<String>,
    pub no_pause: bool,
}

/// A file or directory that is needed: where it was said to be, and where it is looked for if it
/// is not there.
pub struct Resource {
    pub path: String,
    pub absolute: bool,
    pub exists: bool,
    /// What is there is of the right kind.
    pub usable: bool,
    pub beside_exe: String,
    pub beside_exists: bool,
    pub beside_usable: bool,
}

impl Resource {
    /// It is taken from beside the program: it is not where it was said to be, and it is there.
    pub open spec fn taken_beside(&self) -> bool {
        !self.absolute && !self.exists && self.beside_exists
    }

    pub open spec fn resolved(&self) -> Seq<char> {
        if self.taken_beside() {
            self.beside_exe@
        } else {
            self.path@
        }
    }

    pub open spec fn resolved_usable(&self) -> bool {
        if self.taken_beside() {
            self.beside_usable
        } else {
            self.usable
        }
    }

    /// Where it is, and whether what is there is of the right kind.
    pub fn resolve_resource(&self) -> (r: (String, bool))
        ensures
            r.0@ == self.resolved(),
            r.1 == self.resolved_usable(),
    {
        if !self.absolute && !self.exists && self.beside_exists {
            (self.beside_exe.clone(), self.beside_usable)
        } else {
            (self.path.clone(), self.usable)
        }
    }
}

/// Where the language model is.
pub enum ModelResource {
    /// The user says where.
    Given(Resource),
    /// It was looked for, and found or not.
    Searched(Option<String>),
}

/// The files that the settings need.
pub struct Resources {
    pub prompts: Resource,
    pub asr: Resource,
    pub vad: Resource,
    pub llm: ModelResource,
}

/// Why there are no settings.
#[derive(Clone, Copy, Debug, PartialEq, Eq, Structural)]
pub enum ConfigError {
    /// The directory of the prompts does not exist.
    NoPrompts,
    /// The language model is not where the user says.
    NoModelThere,
    /// No language model was found.
    NoModelFound,
}

/// A setting that was out of range.
#[derive(Clone, Copy, Debug, PartialEq, Eq, Structural)]
pub enum Correction {
    CtxSize,
    PrefillBatch,
    BatchSize,
    BatchChars,
    QcContext,
}

impl Correction {
    pub open spec fn option_text(self) -> Seq<char> {
        match self {
            Correction::CtxSize => "--ctx-size"@,
            Correction::PrefillBatch => "--prefill-batch"@,
            Correction::BatchSize => "--batch-size"@,
            Correction::BatchChars => "--batch-chars"@,
            Correction::QcContext => "--qc-context"@,
        }
    }

    /// The option on the command line.
    pub fn option(&self) -> (r: &'static str)
        ensures
            r@ == self.option_text(),
    {
        match self {
            Correction::CtxSize => "--ctx-size",
            Correction::PrefillBatch => "--prefill-batch",
            Correction::BatchSize => "--batch-size",
            Correction::BatchChars => "--batch-chars",
            Correction::QcContext => "--qc-context",
        }
    }
}

/// A value, or another in its place if it is out of range.
pub open spec fn in_range(v: int, lo: int, hi: int, fallback: int) -> int {
    if v < lo || v > hi {
        fallback
    } else {
        v
    }
}

/// A value, or another in its place if it is out of range; that is noted.
fn clamp_u32(
    v: u32,
    lo: u32,
    hi: u32,
    fallback: u32,
    what: Correction,
    notes: &mut Vec<Correction>,
) -> (r: u32)
    ensures
        r == in_range(v as int, lo as int, hi as int, fallback as int),
        final(notes)@ == old(notes)@ + note(v < lo || v > hi, what),
{
    if v < lo || v > hi {
        notes.push(what);
        assert(notes@ =~= old(notes)@ + seq![what]);
        fallback
    } else {
        assert(notes@ =~= old(notes)@ + Seq::<Correction>::empty());
        v
    }
}

/// A value that has only a lower limit.
fn clamp_usize(
    v: usize,
    lo: usize,
    fallback: usize,
    what: Correction,
    notes: &mut Vec<Correction>,
) -> (r: usize)
    ensures
        r == in_range(v as int, lo as int, usize::MAX as int, fallback as int),
        final(notes)@ == old(notes)@ + note(v < lo, what),
{
    if v < lo {
        notes.push(what);
        assert(notes@ =~= old(notes)@ + seq![what]);
        fallback
    } else {
        assert(notes@ =~= old(notes)@ + Seq::<Correction>::empty());
        v
    }
}

/// The settings of a run. Times and probabilities are kept by the program itself.
pub struct Config {
    pub asr_model_dir: String,
    pub vad_model: String,
    pub llm_model: String,
    pub prompts_dir: String,
    pub target_lang: String,
    pub source_lang: String,
    pub batch_size: usize,
    pub batch_chars: usize,
    pub context_size: usize,
    pub max_retries: usize,
    pub summary_chunk_tokens: usize,
    pub translate_tokens_per_item: usize,
    pub gpu_layers: i32,
    pub ctx_size: u32,
    pub prefill_batch: u32,
    pub seed: u32,
    pub asr_threads: i32,
    pub asr_hotwords: String,
    pub asr_max_new_tokens: i32,
    pub asr_max_total_len: i32,
    pub qc_enabled: bool,
    pub qc_context: usize,
    pub qc_retries: usize,
    pub qc_max_tokens: u32,
    pub qc_keep_min_chars: usize,
    pub max_line_width: usize,
    pub layout_enabled: bool,
    pub from_srt: bool,
    pub output_dir: Option<String>,
}

pub open spec fn larger(a: int, b: int) -> int {
    if a < b {
        b
    } else {
        a
    }
}

pub open spec fn smaller(a: int, b: int) -> int {
    if a < b {
        a
    } else {
        b
    }
}

/// Why there are no settings, if there are none.
pub open spec fn config_error(found: Resources) -> Option<ConfigError> {
    if !found.prompts.resolved_usable() {
        Some(ConfigError::NoPrompts)
    } else {
        match found.llm {
            ModelResource::Given(r) => if r.resolved_usable() {
                None
            } else {
                Some(ConfigError::NoModelThere)
            },
            ModelResource::Searched(Some(_)) => None,
            ModelResource::Searched(None) => Some(ConfigError::NoModelFound),
        }
    }
}

/// Where the language model is.
pub open spec fn model_path(llm: ModelResource) -> Seq<char> {
    match llm {
        ModelResource::Given(r) => r.resolved(),
        ModelResource::Searched(Some(p)) => p@,
        ModelResource::Searched(None) => Seq::empty(),
    }
}

/// The context that the model gets.
pub open spec fn ctx_of(args: Args) -> int {
    in_range(args.ctx_size as int, 2048, u32::MAX as int, 2048)
}

/// The settings that were out of range, in order.
pub open spec fn corrections(args: Args) -> Seq<Correction> {
    note(args.ctx_size < 2048, Correction::CtxSize) + note(
        args.prefill_batch < 64 || args.prefill_batch > ctx_of(args),
        Correction::PrefillBatch,
    ) + note(args.batch_size < 1, Correction::BatchSize) + note(
        args.batch_chars < 64,
        Correction::BatchChars,
    ) + note(args.qc_context < 1, Correction::QcContext)
}

pub open spec fn note(out: bool, what: Correction) -> Seq<Correction> {
    if out {
        seq![what]
    } else {
        Seq::empty()
    }
}

/// The settings say what the user asks for, within their limits.
pub open spec fn follows(cfg: Config, args: Args, found: Resources) -> bool {
    &&& cfg.asr_model_dir@ == found.asr.resolved()
    &&& cfg.vad_model@ == found.vad.resolved()
    &&& cfg.llm_model@ == model_path(found.llm)
    &&& cfg.prompts_dir@ == found.prompts.resolved()
    &&& cfg.target_lang@ == args.target_lang@
    &&& cfg.source_lang@ == args.source_lang@
    &&& cfg.batch_size == in_range(args.batch_size as int, 1, usize::MAX as int, 1)
    &&& cfg.batch_chars == in_range(args.batch_chars as int, 64, usize::MAX as int, 1200)
    &&& cfg.context_size == args.context_size
    &&& cfg.max_retries == larger(args.max_retries as int, 1)
    &&& cfg.summary_chunk_tokens == larger(args.summary_chunk_tokens as int, 256)
    &&& cfg.translate_tokens_per_item == larger(args.translate_tokens_per_item as int, 16)
    &&& cfg.gpu_layers == args.gpu_layers
    &&& cfg.ctx_size == ctx_of(args)
    &&& cfg.prefill_batch == smaller(
        in_range(args.prefill_batch as int, 64, ctx_of(args), 2048),
        ctx_of(args),
    )
    &&& cfg.seed == args.seed
    &&& cfg.asr_threads == larger(args.asr_threads as int, 1)
    &&& cfg.asr_hotwords@ == spaces::trim(args.asr_hotwords@)
    &&& cfg.asr_max_new_tokens == larger(args.asr_max_new_tokens as int, 16)
    &&& cfg.asr_max_total_len == larger(args.asr_max_total_len as int, 64)
    &&& cfg.qc_enabled == !args.no_qc
    &&& cfg.qc_context == in_range(args.qc_context as int, 1, usize::MAX as int, 1)
    &&& cfg.qc_retries == smaller(larger(args.qc_retries as int, 1), 5)
    &&& cfg.qc_max_tokens == larger(args.qc_max_tokens as int, 64)
    &&& cfg.qc_keep_min_chars == args.qc_keep_min_chars
    &&& cfg.max_line_width == args.max_line_width
    &&& cfg.layout_enabled == !args.no_layout
    &&& cfg.from_srt == args.from_srt
    &&& paths::text_view(cfg.output_dir) == paths::text_view(args.output_dir)
}

fn at_least_usize(v: usize, lo: usize) -> (r: usize)
    ensures
        r == larger(v as int, lo as int),
{
    if v < lo {
        lo
    } else {
        v
    }
}

fn at_least_i32(v: i32, lo: i32) -> (r: i32)
    ensures
        r == larger(v as int, lo as int),
{
    if v < lo {
        lo
    } else {
        v
    }
}

/// The settings that have a range.
struct Limits {
    ctx_size: u32,
    prefill_batch: u32,
    batch_size: usize,
    batch_chars: usize,
    qc_context: usize,
    notes: Vec<Correction>,
}

/// The settings that have a range, within it.
fn limits_of(args: &Args) -> (r: Limits)
    ensures
        r.ctx_size == ctx_of(*args),
        r.prefill_batch == smaller(
            in_range(args.prefill_batch as int, 64, ctx_of(*args), 2048),
            ctx_of(*args),
        ),
        r.batch_size == in_range(args.batch_size as int, 1, usize::MAX as int, 1),
        r.batch_chars == in_range(args.batch_chars as int, 64, usize::MAX as int, 1200),
        r.qc_context == in_range(args.qc_context as int, 1, usize::MAX as int, 1),
        r.notes@ == corrections(*args),
{
    let mut notes: Vec<Correction> = Vec::new();
    let ctx_size: u32 = clamp_u32(
        args.ctx_size,
        2048,
        u32::MAX,
        2048,
        Correction::CtxSize,
        &mut notes,
    );
    assert(notes@ =~= note(args.ctx_size < 2048, Correction::CtxSize));
    let prefill: u32 = clamp_u32(
        args.prefill_batch,
        64,
        ctx_size,
        2048,
        Correction::PrefillBatch,
        &mut notes,
    );
    let prefill_batch: u32 = if prefill < ctx_size {
        prefill
    } else {
        ctx_size
    };
    let batch_size: usize = clamp_usize(args.batch_size, 1, 1, Correction::BatchSize, &mut notes);
    let batch_chars: usize = clamp_usize(
        args.batch_chars,
        64,
        1200,
        Correction::BatchChars,
        &mut notes,
    );
    let qc_context: usize = clamp_usize(args.qc_context, 1, 1, Correction::QcContext, &mut notes);
    Limits { ctx_size, prefill_batch, batch_size, batch_chars, qc_context, notes }
}

impl Config {
    /// The settings for what the user asks for, and what was out of range.
    pub fn from_args(args: &Args, found: &Resources) -> (r: Result<
        (Config, Vec<Correction>),
        ConfigError,
    >)
        ensures
            match r {
                Ok((cfg, notes)) => {
                    &&& config_error(*found) is None
                    &&& follows(cfg, *args, *found)
                    &&& notes@ == corrections(*args)
                },
                Err(e) => config_error(*found) == Some(e),
            },
    {
        let (prompts_dir, prompts_usable) = found.prompts.resolve_resource();
        if !prompts_usable {
            return Err(ConfigError::NoPrompts);
        }
        let (asr_model_dir, _) = found.asr.resolve_resource();
        let (vad_model, _) = found.vad.resolve_resource();
        let llm_model = match &found.llm {
            ModelResource::Given(given) => {
                let (path, usable) = given.resolve_resource();
                if !usable {
                    return Err(ConfigError::NoModelThere);
                }
                path
            },
            ModelResource::Searched(Some(path)) => path.clone(),
            ModelResource::Searched(None) => {
                return Err(ConfigError::NoModelFound);
            },
        };
        let limits = limits_of(args);
        let cfg = Config {
            asr_model_dir,
            vad_model,
            llm_model,
            prompts_dir,
            target_lang: args.target_lang.clone(),
            source_lang: args.source_lang.clone(),
            batch_size: limits.batch_size,
            batch_chars: limits.batch_chars,
            context_size: args.context_size,
            max_retries: at_least_usize(args.max_retries, 1),
            summary_chunk_tokens: at_least_usize(args.summary_chunk_tokens, 256),
            translate_tokens_per_item: at_least_usize(args.translate_tokens_per_item, 16),
            gpu_layers: args.gpu_layers,
            ctx_size: limits.ctx_size,
            prefill_batch: limits.prefill_batch,
            seed: args.seed,
            asr_threads: at_least_i32(args.asr_threads, 1),
            asr_hotwords: trimmed(args.asr_hotwords.as_str()),
            asr_max_new_tokens: at_least_i32(args.asr_max_new_tokens, 16),
            asr_max_total_len: at_least_i32(args.asr_max_total_len, 64),
            qc_enabled: !args.no_qc,
            qc_context: limits.qc_context,
            qc_retries: if args.qc_retries < 1 {
                1
            } else if args.qc_retries > 5 {
                5
            } else {
                args.qc_retries
            },
            qc_max_tokens: if args.qc_max_tokens < 64 {
                64
            } else {
                args.qc_max_tokens
            },
            qc_keep_min_chars: args.qc_keep_min_chars,
            max_line_width: args.max_line_width,
            layout_enabled: !args.no_layout,
            from_srt: args.from_srt,
            output_dir: args.output_dir.clone(),
        };
        Ok((cfg, limits.notes))
    }

    /// Where the finished subtitles go; those made from subtitles get a name of their own.
    pub fn output_srt_path(&self, input: &InputPath) -> (r: OutputPath)
        ensures
            r.dir@ == paths::output_dir(
                paths::text_view(self.output_dir),
                paths::text_view(input.parent),
            ),
            r.name@ == paths::input_stem(paths::text_view(input.file_name)) + (if self.from_srt {
                ".translated.srt"@
            } else {
                ".srt"@
            }),
    {
        if self.from_srt {
            output_for(&self.output_dir, input, ".translated.srt")
        } else {
            output_for(&self.output_dir, input, ".srt")
        }
    }

    /// Where the recognised text goes.
    pub fn raw_srt_path(&self, input: &InputPath) -> (r: OutputPath)
        ensures
            r.dir@ == paths::output_dir(
                paths::text_view(self.output_dir),
                paths::text_view(input.parent),
            ),
            r.name@ == paths::input_stem(paths::text_view(input.file_name)) + ".raw.srt"@,
    {
        output_for(&self.output_dir, input, ".raw.srt")
    }

    /// Where the checked text goes.
    pub fn verified_srt_path(&self, input: &InputPath) -> (r: OutputPath)
        ensures
            r.dir@ == paths::output_dir(
                paths::text_view(self.output_dir),
                paths::text_view(input.parent),
            ),
            r.name@ == paths::input_stem(paths::text_view(input.file_name)) + ".verified.srt"@,
    {
        output_for(&self.output_dir, input, ".verified.srt")
    }
}

/// Settings are always within their limits: the context has room for a prompt, prompts go to the
/// model in pieces that fit it, and batches, attempts and memories are never empty.
pub proof fn law_settings_are_usable(cfg: Config, args: Args, found: Resources)
    requires
        follows(cfg, args, found),
    ensures
        cfg.ctx_size >= 2048,
        64 <= cfg.prefill_batch <= cfg.ctx_size,
        cfg.batch_size >= 1,
        cfg.batch_chars >= 64,
        cfg.max_retries >= 1,
        cfg.qc_context >= 1,
        cfg.summary_chunk_tokens >= 256,
        cfg.translate_tokens_per_item >= 16,
        cfg.asr_threads >= 1,
        1 <= cfg.qc_retries <= 5,
        cfg.qc_max_tokens >= 64,
{
}

/// What was made from subtitles never takes the place of what it was made from, whatever that is
/// called.
pub proof fn law_translation_spares_its_input(file_name: Seq<char>)
    ensures
        paths::input_stem(Some(file_name)) + ".translated.srt"@ != file_name,
{
    let suffix = ".translated.srt"@;
    reveal_strlit(".translated.srt");
    let stem = paths::stem_of(file_name);
    if stem + suffix == file_name {
        let dot = stem.len() + 11;
        assert(file_name[dot as int] == suffix[11]);
        paths::lemma_last_of(file_name, '.', dot as int);
    }
}

} // verus!
