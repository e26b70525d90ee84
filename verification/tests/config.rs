use std::path::{Path, PathBuf};
use subtitle_assistant::config::paths::OutputPath;
use subtitle_assistant::config::settings::{ModelResource, Resource};
use subtitle_assistant::config::models::{model_roots, names_model};
use subtitle_assistant::config::{
    Args, Config, ConfigError, Correction, DirEntry, InputPath, ModelHunt, ModelSearch, Resources,
};
use subtitle_assistant::runtime::DevicePref;

fn input(p: &Path) -> InputPath {
    InputPath {
        parent: p.parent().map(|d| d.to_string_lossy().to_string()),
        file_name: p.file_name().map(|n| n.to_string_lossy().to_string()),
    }
}

fn output(o: OutputPath) -> PathBuf {
    Path::new(&o.dir).join(&o.name)
}

fn here(path: &str, usable: bool) -> Resource {
    Resource {
        path: path.to_string(),
        absolute: false,
        exists: true,
        usable,
        beside_exe: format!("/exe/{path}"),
        beside_exists: false,
        beside_usable: false,
    }
}

fn resources() -> Resources {
    Resources {
        prompts: here(".", true),
        asr: here("./models/asr", true),
        vad: here("./models/silero_vad.onnx", true),
        llm: ModelResource::Given(here("x.gguf", true)),
    }
}

fn args() -> Args {
    Args {
        files: vec![],
        asr_model_dir: "./models/asr".to_string(),
        vad_model: "./models/silero_vad.onnx".to_string(),
        llm_model: Some("x.gguf".to_string()),
        prompts_dir: ".".to_string(),
        device: DevicePref::Cpu,
        lib_dirs: vec![],
        gpu_layers: 0,
        ctx_size: 4096,
        prefill_batch: 512,
        seed: 1,
        max_retries: 1,
        summary_chunk_tokens: 1000,
        translate_tokens_per_item: 64,
        asr_threads: 1,
        asr_hotwords: String::new(),
        asr_max_new_tokens: 128,
        asr_max_total_len: 512,
        no_qc: true,
        qc_context: 1,
        qc_retries: 1,
        qc_max_tokens: 128,
        qc_keep_min_chars: 30,
        batch_size: 5,
        batch_chars: 200,
        context_size: 2,
        target_lang: "简体中文".into(),
        source_lang: "日语".into(),
        max_line_width: 40,
        no_layout: false,
        from_srt: false,
        output_dir: None,
        log_file: None,
        no_pause: true,
    }
}

fn config(a: &Args) -> (Config, Vec<Correction>) {
    match Config::from_args(a, &resources()) {
        Ok(r) => r,
        Err(e) => panic!("{e:?}"),
    }
}

#[test]
fn stem_strips_only_last_extension() {
    assert_eq!(input(Path::new("a/video.mp4")).file_stem(), "video");
    assert_eq!(input(Path::new("video.en.srt")).file_stem(), "video.en");
    assert_eq!(input(Path::new("noext")).file_stem(), "noext");
}

#[test]
fn stems_of_odd_names() {
    assert_eq!(input(Path::new(".hidden")).file_stem(), ".hidden");
    assert_eq!(input(Path::new("/")).file_stem(), "output");
    assert!(input(Path::new("a/b.srt")).has_extension("srt"));
    assert!(!input(Path::new("a/b.SRT")).has_extension("srt"));
    assert!(!input(Path::new("a/.srt")).has_extension("srt"));
    assert!(!input(Path::new("srt")).has_extension("srt"));
}

#[test]
fn output_paths_respect_output_dir_and_from_srt() {
    let base = args();
    let (cfg, _) = config(&base);
    let media = Path::new("/media/ep01.mp4");
    assert_eq!(
        output(cfg.output_srt_path(&input(media))),
        PathBuf::from("/media/ep01.srt")
    );
    assert_eq!(
        output(cfg.raw_srt_path(&input(media))),
        PathBuf::from("/media/ep01.raw.srt")
    );

    let mut srt_args = args();
    srt_args.from_srt = true;
    srt_args.output_dir = Some("/tmp/out".to_string());
    let (cfg2, _) = config(&srt_args);
    let srt = Path::new("/media/ep01.srt");
    assert_eq!(
        output(cfg2.output_srt_path(&input(srt))),
        PathBuf::from("/tmp/out/ep01.translated.srt")
    );
    assert_eq!(
        output(cfg2.verified_srt_path(&input(Path::new("ep01.mp4")))),
        PathBuf::from("/tmp/out/ep01.verified.srt")
    );
    assert_eq!(
        output(cfg.output_srt_path(&input(Path::new("ep01.mp4")))),
        PathBuf::from("./ep01.srt")
    );
}

#[test]
fn settings_out_of_range_are_corrected_and_noted() {
    let (ok, notes) = config(&args());
    assert!(notes.is_empty());
    assert_eq!((ok.ctx_size, ok.prefill_batch), (4096, 512));
    assert_eq!((ok.qc_retries, ok.qc_max_tokens, ok.qc_keep_min_chars), (1, 128, 30));
    assert!(!ok.qc_enabled && ok.layout_enabled);

    let mut a = args();
    a.ctx_size = 100;
    a.prefill_batch = 5000;
    a.batch_size = 0;
    a.batch_chars = 10;
    a.qc_context = 0;
    a.qc_retries = 9;
    a.qc_max_tokens = 1;
    a.max_retries = 0;
    a.summary_chunk_tokens = 1;
    a.translate_tokens_per_item = 1;
    a.asr_threads = -3;
    a.asr_hotwords = "  a,b ".to_string();
    a.asr_max_new_tokens = 0;
    a.asr_max_total_len = 0;
    let (cfg, notes) = config(&a);
    assert_eq!(
        notes,
        vec![
            Correction::CtxSize,
            Correction::PrefillBatch,
            Correction::BatchSize,
            Correction::BatchChars,
            Correction::QcContext
        ]
    );
    assert_eq!(notes[1].option(), "--prefill-batch");
    assert_eq!((cfg.ctx_size, cfg.prefill_batch), (2048, 2048));
    assert_eq!((cfg.batch_size, cfg.batch_chars, cfg.qc_context), (1, 1200, 1));
    assert_eq!((cfg.max_retries, cfg.summary_chunk_tokens), (1, 256));
    assert_eq!((cfg.translate_tokens_per_item, cfg.asr_threads), (16, 1));
    assert_eq!((cfg.asr_max_new_tokens, cfg.asr_max_total_len), (16, 64));
    assert_eq!((cfg.qc_retries, cfg.qc_max_tokens), (5, 64));
    assert_eq!(cfg.asr_hotwords, "a,b");
}

#[test]
fn missing_files_are_errors() {
    let mut r = resources();
    r.prompts.usable = false;
    assert!(matches!(
        Config::from_args(&args(), &r),
        Err(ConfigError::NoPrompts)
    ));
    let mut r = resources();
    r.llm = ModelResource::Given(here("x.gguf", false));
    assert!(matches!(
        Config::from_args(&args(), &r),
        Err(ConfigError::NoModelThere)
    ));
    let mut r = resources();
    r.llm = ModelResource::Searched(None);
    assert!(matches!(
        Config::from_args(&args(), &r),
        Err(ConfigError::NoModelFound)
    ));
    let mut r = resources();
    r.llm = ModelResource::Searched(Some("m/a.gguf".to_string()));
    let cfg = Config::from_args(&args(), &r).map(|c| c.0.llm_model);
    assert_eq!(cfg, Ok("m/a.gguf".to_string()));
}

#[test]
fn resources_beside_the_program_are_second_choice() {
    let mut r = here("p", false);
    r.exists = false;
    assert_eq!(r.resolve_resource(), ("p".to_string(), false));
    r.beside_exists = true;
    r.beside_usable = true;
    assert_eq!(r.resolve_resource(), ("/exe/p".to_string(), true));
    r.absolute = true;
    assert_eq!(r.resolve_resource(), ("p".to_string(), false));
}

fn entry(dir: &str, name: &str, is_dir: bool) -> DirEntry {
    DirEntry {
        name: name.to_string(),
        path: format!("{dir}/{name}"),
        is_dir,
    }
}

fn listing(dir: &str) -> Vec<DirEntry> {
    match dir {
        "m" => vec![
            entry("m", "z.gguf", false),
            entry("m", "b", true),
            entry("m", "readme.md", false),
            entry("m", "a", true),
        ],
        "m/a" => vec![entry("m/a", "notes.txt", false)],
        "m/b" => vec![entry("m/b", "2.GGUF", false), entry("m/b", "1.gguf", false)],
        _ => vec![],
    }
}

#[test]
fn models_are_found_in_the_order_of_their_paths() {
    let mut s = ModelSearch::start("m".to_string());
    while let Some(dir) = s.wants() {
        let entries = listing(dir);
        s = s.take_listing(entries);
    }
    assert_eq!(s.found, vec!["m/b/1.gguf", "m/b/2.GGUF", "m/z.gguf"]);
    assert_eq!(s.first(), Some("m/b/1.gguf"));
}

#[test]
fn the_first_directory_with_a_model_wins() {
    let roots = vec!["empty".to_string(), "m".to_string(), "later".to_string()];
    let mut h = ModelHunt::start(roots);
    let mut listed: Vec<String> = Vec::new();
    while let Some(dir) = h.wants() {
        listed.push(dir.to_string());
        let entries = listing(dir);
        h = h.take_listing(entries);
    }
    assert_eq!(listed, vec!["empty", "m", "m/a", "m/b"]);
    assert_eq!(h.first(), Some("m/b/1.gguf"));

    let none = ModelHunt::start(vec![]);
    assert!(none.wants().is_none() && none.first().is_none());
}

#[test]
fn the_search_does_not_go_deeper_than_it_should() {
    let mut s = ModelSearch::start("d".to_string());
    let mut listed = 0;
    while let Some(dir) = s.wants() {
        listed += 1;
        let below = entry(dir, "d", true);
        s = s.take_listing(vec![below]);
    }
    assert_eq!(listed, 8);
    assert_eq!(s.first(), None);
}

#[test]
fn model_names_and_roots() {
    assert!(names_model("a.b.GgUf"));
    assert!(!names_model("gguf"));
    assert!(!names_model(".gguf"));
    assert_eq!(
        model_roots("/exe", Some("./models".to_string()), '/'),
        vec!["./models", "/exe/models"]
    );
    assert_eq!(
        model_roots(".", Some("elsewhere".to_string()), '/'),
        vec!["./models", "elsewhere"]
    );
    assert_eq!(model_roots("", None, '/'), vec!["./models", "models"]);
    assert_eq!(model_roots("/exe/", None, '/'), vec!["./models", "/exe/models"]);
    assert_eq!(model_roots(".", Some(".//models/.".to_string()), '/'), vec!["./models"]);
    assert_eq!(
        model_roots("C:\\exe", Some("C:/exe//models".to_string()), '\\'),
        vec!["./models", "C:\\exe\\models"]
    );
}

#[test]
fn paths_of_models_are_those_of_the_entries() {
    let at_the_root = |name: &str, path: &str| DirEntry {
        name: name.to_string(),
        path: path.to_string(),
        is_dir: false,
    };
    let s = ModelSearch::start("/exe/".to_string());
    let s = s.take_listing(vec![at_the_root("m.gguf", "/exe/m.gguf")]);
    assert_eq!(s.first(), Some("/exe/m.gguf"));
    let s = ModelSearch::start("C:\\m".to_string());
    let s = s.take_listing(vec![at_the_root("m.gguf", "C:\\m\\m.gguf")]);
    assert_eq!(s.first(), Some("C:\\m\\m.gguf"));
}

#[test]
fn translations_never_overwrite_their_input() {
    let mut a = args();
    a.from_srt = true;
    let (cfg, _) = config(&a);
    for name in ["a.srt", ".translated.srt", "x.translated.srt", "noext", "."] {
        let file = InputPath {
            parent: Some("d".to_string()),
            file_name: Some(name.to_string()),
        };
        assert_ne!(cfg.output_srt_path(&file).name, name);
    }
}
