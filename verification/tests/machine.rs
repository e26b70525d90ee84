use subtitle_assistant::pipeline::{
    after_speech, checks_sentences, failed_files, finish_subtitles, mode_of, reindex, AfterSpeech,
    Mode,
};
use subtitle_assistant::runtime::{
    add_search_dirs, probe_target, probes_cuda, DevicePref, RuntimeInfo,
};
use subtitle_assistant::speech::{
    bias_words, fallback_provider, keep_segment, recognized, recognizer_files, speech_times,
    AudioFeed, MessageTail,
};
use subtitle_assistant::srt::CueLimit;
use subtitle_assistant::types::SubtitleSegment;

fn seg(i: usize, t: &str) -> SubtitleSegment {
    SubtitleSegment {
        index: i,
        start_ms: 0,
        end_ms: 1000,
        text: t.to_string(),
    }
}

fn detect(pref: DevicePref, llm: bool, asr: bool) -> Option<RuntimeInfo> {
    RuntimeInfo::detect(pref, Some("/exe".to_string()), vec![], llm, asr).ok()
}

#[test]
fn devices_are_chosen_by_what_loads() {
    let auto = detect(DevicePref::Auto, true, false).unwrap();
    assert_eq!(auto.exe_dir(), "/exe");
    assert_eq!((auto.asr_provider(), auto.default_gpu_layers()), ("cpu", 999));
    let cpu = detect(DevicePref::Cpu, true, true).unwrap();
    assert_eq!((cpu.asr_provider(), cpu.default_gpu_layers()), ("cpu", 0));
    let cuda = detect(DevicePref::Cuda, false, true).unwrap();
    assert_eq!((cuda.asr_provider(), cuda.default_gpu_layers()), ("cuda", 0));
    assert!(detect(DevicePref::Cuda, false, false).is_none());
    assert!(detect(DevicePref::Auto, false, false).is_some());
    assert!(!probes_cuda(DevicePref::Cpu) && probes_cuda(DevicePref::Auto));
}

#[test]
fn missing_cuda_is_explained() {
    let e = match RuntimeInfo::detect(DevicePref::Cuda, None, vec![], false, false) {
        Ok(_) => panic!("found"),
        Err(e) => e,
    };
    let m = e.message("a.so", "b.so");
    assert!(m.starts_with("--device cuda 已指定，但 a.so 与 b.so 均无法加载。\n请确认：\n  1."));
    let here = match RuntimeInfo::detect(DevicePref::Cpu, None, vec![], false, false) {
        Ok(r) => r,
        Err(_) => panic!("refused"),
    };
    assert_eq!(here.exe_dir(), ".");
}

#[test]
fn gpu_layers_follow_the_user_first() {
    let info = detect(DevicePref::Auto, true, true).unwrap();
    assert_eq!(info.resolve_gpu_layers(-1), 999);
    assert_eq!(info.resolve_gpu_layers(0), 0);
    assert_eq!(info.resolve_gpu_layers(12), 12);
}

#[test]
fn device_names() {
    assert_eq!(DevicePref::Auto.name(), "auto");
    assert_eq!(DevicePref::Cpu.name(), "cpu");
    assert_eq!(DevicePref::Cuda.name(), "cuda");
}

#[test]
fn libraries_come_from_the_first_directory_that_has_them() {
    assert_eq!(probe_target(&vec![false, true, true]), Some(1));
    assert_eq!(probe_target(&vec![false]), None);
    let dirs = vec!["a".to_string(), "b".to_string(), "c".to_string()];
    assert_eq!(add_search_dirs(&dirs, &vec![true, false, true]), vec!["a", "c"]);
}

#[test]
fn audio_is_framed_wherever_it_is_cut() {
    let bytes: Vec<u8> = (0..(512 * 4 * 2 + 7)).map(|i| (i % 251) as u8).collect();
    let mut whole = AudioFeed::new();
    let all = whole.feed(&bytes);
    assert_eq!(all.len(), 2);
    assert_eq!(all[0].len(), 512);
    assert_eq!(all[0][0], [0, 1, 2, 3]);
    assert_eq!(whole.pending.len(), 1);
    assert_eq!(whole.partial.len(), 3);

    let mut pieces = AudioFeed::new();
    let mut got = Vec::new();
    for chunk in bytes.chunks(333) {
        got.extend(pieces.feed(chunk));
    }
    assert_eq!(got, all);
    assert_eq!(pieces.pending, whole.pending);
    assert_eq!(pieces.partial, whole.partial);
    assert_eq!(pieces.partial, bytes[bytes.len() - 3..].to_vec());
}

#[test]
fn speech_is_timed_in_milliseconds() {
    assert_eq!(speech_times(16_000, 8_000), (1_000, 1_500));
    assert_eq!(speech_times(-5, 16), (0, 1));
    assert_eq!(speech_times(15, 15), (0, 0));
}

#[test]
fn only_speech_with_text_is_recognised() {
    let s = recognized(32_000, 16_000, Some(" はい ".to_string())).unwrap();
    assert_eq!(
        (s.index, s.start_ms, s.end_ms, s.text.as_str()),
        (0, 2_000, 3_000, "はい")
    );
    assert!(recognized(0, 16_000, Some("  ".to_string())).is_none());
    assert!(recognized(0, 16_000, None).is_none());
    assert!(recognized(0, 0, Some("x".to_string())).is_none());
}

#[test]
fn kept_sentences_are_numbered() {
    let mut list = Vec::new();
    keep_segment(&mut list, seg(0, "a"), true);
    keep_segment(&mut list, seg(0, "b"), false);
    keep_segment(&mut list, seg(0, "c"), true);
    let got: Vec<(usize, &str)> = list.iter().map(|s| (s.index, s.text.as_str())).collect();
    assert_eq!(got, vec![(1, "a"), (2, "c")]);
}

#[test]
fn recogniser_settings() {
    let f = recognizer_files("m/asr");
    assert_eq!(f.conv_frontend, "m/asr/conv_frontend.onnx");
    assert_eq!(f.encoder, "m/asr/encoder.int8.onnx");
    assert_eq!(f.decoder, "m/asr/decoder.int8.onnx");
    assert_eq!(f.tokenizer, "m/asr/tokenizer");
    assert_eq!(bias_words(""), None);
    assert_eq!(bias_words("a,b"), Some("a,b".to_string()));
    assert_eq!(fallback_provider("cuda"), Some("cpu"));
    assert_eq!(fallback_provider("cpu"), None);
}

#[test]
fn the_last_messages_are_kept() {
    let mut t = MessageTail::new();
    assert_eq!(
        t.exit_message("exit status: 1"),
        "FFmpeg 解码异常退出（exit status: 1）。最后输出:\n（无 stderr 输出）"
    );
    for i in 0..30 {
        t.push(format!("line {i}"));
    }
    assert_eq!(t.lines.len(), 25);
    assert_eq!(t.lines[0], "line 5");
    assert!(t.exit_message("x").ends_with("line 28\nline 29"));
}

#[test]
fn modes_and_what_follows() {
    assert_eq!(mode_of(true, true), Mode::FromSrt);
    assert_eq!(mode_of(false, true), Mode::WithQc);
    assert_eq!(mode_of(false, false), Mode::Linear);
    assert!(checks_sentences(false, true) && !checks_sentences(true, true));
    assert_eq!(after_speech(0, true), AfterSpeech::NothingHeard);
    assert_eq!(after_speech(3, true), AfterSpeech::Finished);
    assert_eq!(after_speech(3, false), AfterSpeech::Translate);
    assert_eq!(failed_files(Some(0), 3), 0);
    assert_eq!(failed_files(None, 3), 3);
    assert_eq!(failed_files(None, 0), 1);
}

#[test]
fn renumbering() {
    let mut v = vec![seg(9, "a"), seg(9, "b")];
    reindex(&mut v);
    assert_eq!((v[0].index, v[1].index), (1, 2));
    assert_eq!(v[1].text, "b");
}

#[test]
fn finishing_lays_out_or_not() {
    let free = CueLimit {
        too_long: false,
        parts: 2,
        max_chars: 0,
    };
    let out = finish_subtitles(vec![seg(7, "a b c d")], true, 4, &vec![free]).unwrap();
    assert_eq!((out[0].index, out[0].text.as_str()), (1, "a b\nc d"));
    let out = finish_subtitles(vec![seg(7, " a ")], false, 4, &vec![free]).unwrap();
    assert_eq!((out[0].index, out[0].text.as_str()), (7, " a "));
    assert!(finish_subtitles(vec![seg(7, "  ")], true, 4, &vec![free]).is_none());
    assert_eq!(
        finish_subtitles(vec![seg(7, "a")], false, 4, &vec![]).map(|v| v.len()),
        Some(1)
    );
    assert!(finish_subtitles(vec![], false, 4, &vec![]).is_none());
}
