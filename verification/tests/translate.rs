use subtitle_assistant::prompt::PromptStore;
use subtitle_assistant::translate::ask::{
    items_max_new, prompt_budget, summary_max_new, Action, ChatRequest, Event, Reply, HINT_ARRAY,
    HINT_OBJECT, STRICT_HINT,
};
use subtitle_assistant::translate::batches::plan_chunks;
use subtitle_assistant::translate::copies::{common_chars, count_copies, looks_copied};
use subtitle_assistant::translate::merge::merge_batch;
use subtitle_assistant::translate::prompts::TranslateConfig;
use subtitle_assistant::translate::{has_residual_script, plan_batches, Translator};
use subtitle_assistant::types::{
    GlobalContext, GlossaryItem, SubtitleSegment, TranslateItem, TranslateStats,
};

fn seg(i: usize, t: &str) -> SubtitleSegment {
    SubtitleSegment {
        index: i,
        start_ms: (i as u64) * 1000,
        end_ms: (i as u64) * 1000 + 900,
        text: t.to_string(),
    }
}

fn item(i: i64, t: &str) -> TranslateItem {
    TranslateItem {
        i,
        t: t.to_string(),
    }
}

#[test]
fn copied_detection() {
    assert!(looks_copied("今日は良い天気です", "今日は良い天気です"));
    assert!(looks_copied("今日は良い天気です", "今日は良い天気です。"));
    assert!(!looks_copied("今日は良い天気です", "今天天气很好"));
    assert!(!looks_copied("今日は良い天気です", ""));
    assert!(!looks_copied("あいうえおかきくけこさしすせそ", "あい"));
    assert!(!looks_copied("今日。", "今日。"));
    assert!(!looks_copied("戦争", "戦争"));
    assert!(!looks_copied("皆さんに。", "各位。"));
}

#[test]
fn likeness_is_nine_tenths() {
    // 9 of 10 on either side is alike, 8 of 10 is not
    assert!(looks_copied("abcdefghij", "abcdefghiX"));
    assert!(!looks_copied("abcdefghij", "abcdefghXY"));
    // the order does not count, repetitions do
    assert!(looks_copied("abcdefghij", "jihgfedcba"));
    let a: Vec<char> = "aab".chars().collect();
    let b: Vec<char> = "abb".chars().collect();
    assert_eq!(common_chars(&a, &b), 2);
    // white space around the texts does not count
    assert!(looks_copied(" abcdefgh ", "abcdefgh\n"));
}

#[test]
fn residual_script_detection() {
    assert!(has_residual_script("而我的喜欢的キャラのおもちゃ却完全不被消费", "kana"));
    assert!(has_residual_script("どっしり構えようと。", "kana"));
    assert!(!has_residual_script("老人唯一的财产是一匹马，还有三个儿子。", "kana"));
    assert!(!has_residual_script("iPS 细胞与 Wi-Fi、ACTA 等拉丁词不算假名残留", "kana"));
    assert!(!has_residual_script("キャラ", "none"));
    assert!(has_residual_script("한국어 테스트", "hangul"));
    assert!(!has_residual_script("キャラ", "hangul"));
}

#[test]
fn batch_planning_respects_char_budget() {
    let segs: Vec<SubtitleSegment> = (1..=10).map(|i| seg(i, &"あ".repeat(30))).collect();
    assert_eq!(
        plan_batches(&segs, 20, 100),
        vec![(0, 3), (3, 6), (6, 9), (9, 10)]
    );
}

#[test]
fn batch_planning_respects_count_limit() {
    let segs: Vec<SubtitleSegment> = (1..=7).map(|i| seg(i, "短")).collect();
    assert_eq!(plan_batches(&segs, 3, 1000), vec![(0, 3), (3, 6), (6, 7)]);
}

#[test]
fn batch_planning_single_oversized_item_still_forms_a_batch() {
    let segs = vec![seg(1, &"あ".repeat(500)), seg(2, "短")];
    let plan = plan_batches(&segs, 20, 100);
    assert_eq!(plan, vec![(0, 1), (1, 2)], "{plan:?}");
}

#[test]
fn batch_planning_empty_input() {
    assert!(plan_batches(&[], 20, 100).is_empty());
}

#[test]
fn limits_have_their_own_limits() {
    let segs: Vec<SubtitleSegment> = (1..=3).map(|i| seg(i, "")).collect();
    assert_eq!(plan_batches(&segs, 0, 0), vec![(0, 1), (1, 2), (2, 3)]);
    assert_eq!(plan_chunks(&vec![9, 9, 9], 20), vec![(0, 2), (2, 3)]);
    assert_eq!(plan_chunks(&vec![99, 1], 20), vec![(0, 1), (1, 2)]);
    assert_eq!(prompt_budget(8192), 6144);
    assert_eq!(prompt_budget(1000), 512);
    assert_eq!(summary_max_new(8192, 1000), 2048);
    assert_eq!(summary_max_new(2048, 1000), 984);
    assert_eq!(summary_max_new(2048, 5000), 256);
    assert_eq!(items_max_new(64, 1), 512);
    assert_eq!(items_max_new(64, 20), 1536);
    assert_eq!(items_max_new(usize::MAX, usize::MAX), 6144);
}

#[test]
fn replies_are_merged_by_number_and_then_by_position() {
    let batch = vec![seg(1, "一"), seg(2, "二"), seg(3, "三")];
    let mut out = Vec::new();
    let mut stats = TranslateStats::default();
    let items = vec![item(3, " C "), item(7, "B"), item(1, "A")];
    merge_batch(&batch, &items, &mut out, &mut stats);
    let texts: Vec<&str> = out.iter().map(|s| s.text.as_str()).collect();
    assert_eq!(texts, vec!["A", "B", "C"]);
    assert_eq!((stats.positional, stats.untranslated), (1, 0));

    let mut out = Vec::new();
    let mut stats = TranslateStats::default();
    merge_batch(&batch, &vec![item(2, "B"), item(3, "  ")], &mut out, &mut stats);
    let texts: Vec<&str> = out.iter().map(|s| s.text.as_str()).collect();
    assert_eq!(texts, vec!["一", "B", "三"]);
    assert_eq!((stats.positional, stats.untranslated), (0, 2));
    assert_eq!((out[2].index, out[2].start_ms, out[2].end_ms), (3, 3000, 3900));
}

#[test]
fn copies_are_counted_by_number() {
    let batch = vec![seg(1, "今日は良い天気です"), seg(2, "今日は良い天気です")];
    let items = vec![item(1, "今日は良い天気です"), item(2, "今天天气很好")];
    assert_eq!(count_copies(&batch, &items), 1);
    assert_eq!(count_copies(&batch, &vec![item(-1, "今日は良い天気です")]), 0);
}

// ---------------------------------------------------------------------------
// whole runs
// ---------------------------------------------------------------------------

fn store() -> PromptStore {
    let mut s = PromptStore::new("prompts");
    s.insert("extract_context.txt", "SUM:{{transcript}}");
    s.insert(
        "translate_batch.txt",
        "TR {{source_lang}}>{{target_lang}} {{summary}} {{glossary}} {{context}} {{batch}}",
    );
    s.insert("review_batch.txt", "REV {{target_lang}} {{glossary}} {{pairs}}");
    s
}

fn cfg() -> TranslateConfig {
    TranslateConfig {
        n_ctx: 8192,
        batch_size: 2,
        batch_chars: 1000,
        context_size: 1,
        max_retries: 2,
        translate_tokens_per_item: 64,
        summary_chunk_tokens: 1000,
        seed: 7,
        source_lang: "日语".to_string(),
        target_lang: "中文".to_string(),
        review_enabled: false,
        residual_script: "none".to_string(),
    }
}

fn known() -> GlobalContext {
    GlobalContext {
        summary: "S".to_string(),
        glossary: vec![GlossaryItem {
            source: "a".to_string(),
            target: "b".to_string(),
            note: None,
        }],
    }
}

fn film(n: usize) -> Vec<SubtitleSegment> {
    (1..=n).map(|i| seg(i, &format!("原文{i}"))).collect()
}

fn counts(n: usize) -> Vec<usize> {
    vec![10; n]
}

/// Runs to the end; counts every text as its characters, and answers requests with `reply`.
fn run(mut t: Translator, reply: &mut dyn FnMut(&ChatRequest) -> Event) -> (Vec<SubtitleSegment>, TranslateStats) {
    for _ in 0..1000 {
        let event = match t.action() {
            Action::Count(text) => Event::Tokens(text.chars().count()),
            Action::Ask(r) => reply(&r),
            Action::Finish => return t.finish(),
        };
        t = t.step(event);
    }
    panic!("no end");
}

/// The numbers in the batch of a translation prompt.
fn numbers(r: &ChatRequest) -> Vec<i64> {
    let list = &r.prompt[r.prompt.rfind("[{\"i\"").unwrap()..];
    let end = list.find("}]").unwrap() + 2;
    let v: serde_json::Value = serde_json::from_str(&list[..end]).unwrap();
    v.as_array()
        .unwrap()
        .iter()
        .map(|x| x.get("i").unwrap().as_i64().unwrap())
        .collect()
}

fn translated(r: &ChatRequest) -> Event {
    let items = numbers(r).into_iter().map(|i| item(i, &format!("译{i}"))).collect();
    Event::Items(Reply::Parsed(items))
}

fn texts(v: &[SubtitleSegment]) -> Vec<&str> {
    v.iter().map(|s| s.text.as_str()).collect()
}

fn same_times(a: &[SubtitleSegment], b: &[SubtitleSegment]) -> bool {
    a.len() == b.len()
        && a.iter().zip(b).all(|(x, y)| {
            x.index == y.index && x.start_ms == y.start_ms && x.end_ms == y.end_ms
        })
}

#[test]
fn a_film_is_translated_batch_by_batch() {
    let mut seen: Vec<(String, u32, u32)> = Vec::new();
    let t = Translator::new(film(3), &counts(3), store(), cfg());
    let (out, stats) = run(t, &mut |r| {
        seen.push((r.prompt.clone(), r.seed, r.max_new));
        if r.array {
            translated(r)
        } else {
            Event::Context(Reply::Parsed(known()))
        }
    });
    assert_eq!(texts(&out), vec!["译1", "译2", "译3"]);
    assert!(same_times(&out, &film(3)));
    let seed = 7u32.wrapping_add(0x9E37_79B9);
    assert_eq!(seen[0], ("SUM:原文1\n原文2\n原文3".to_string(), seed, 2048));
    assert_eq!(
        seen[1].0,
        "TR 日语>中文 S - a -> b （无） [{\"i\":1,\"t\":\"原文1\"},{\"i\":2,\"t\":\"原文2\"}]"
    );
    assert_eq!((seen[1].1, seen[1].2), (seed, 512));
    assert_eq!(
        seen[2].0,
        "TR 日语>中文 S - a -> b [{\"i\":2,\"t\":\"译2\"}] [{\"i\":3,\"t\":\"原文3\"}]"
    );
    assert_eq!(seen.len(), 3);
    assert_eq!((stats.segments, stats.batches, stats.summary_chunks), (3, 2, 1));
    assert_eq!((stats.retries, stats.untranslated), (0, 0));
}

#[test]
fn an_empty_film_needs_nothing() {
    let t = Translator::new(vec![], &vec![], store(), cfg());
    assert!(t.is_done());
    let (out, stats) = t.finish();
    assert!(out.is_empty());
    assert_eq!(stats.segments, 0);
}

#[test]
fn failures_keep_the_film() {
    let t = Translator::new(film(3), &counts(3), store(), cfg());
    let (out, stats) = run(t, &mut |r| {
        if r.array {
            Event::Items(Reply::Failed)
        } else {
            Event::Context(Reply::Failed)
        }
    });
    assert_eq!(texts(&out), vec!["原文1", "原文2", "原文3"]);
    assert!(same_times(&out, &film(3)));
    assert_eq!((stats.failed_batches, stats.untranslated, stats.retries), (2, 3, 6));
}

#[test]
fn missing_prompts_keep_the_film() {
    let t = Translator::new(film(3), &counts(3), PromptStore::new("none"), cfg());
    assert!(t.is_done());
    let (out, stats) = t.finish();
    assert_eq!(texts(&out), vec!["原文1", "原文2", "原文3"]);
    assert_eq!((stats.batches, stats.failed_batches, stats.untranslated), (2, 2, 3));
}

#[test]
fn empty_summaries_are_asked_for_again_with_a_hint() {
    let mut prompts: Vec<String> = Vec::new();
    let t = Translator::new(film(1), &counts(1), store(), cfg());
    let (_, stats) = run(t, &mut |r| {
        if r.array {
            return translated(r);
        }
        prompts.push(r.prompt.clone());
        if prompts.len() == 1 {
            Event::Context(Reply::Parsed(GlobalContext::default()))
        } else {
            Event::Context(Reply::Parsed(known()))
        }
    });
    assert_eq!(prompts, vec!["SUM:原文1".to_string(), format!("SUM:原文1{HINT_OBJECT}")]);
    assert_eq!(stats.retries, 1);
}

#[test]
fn long_films_are_summarised_in_chunks() {
    let mut asked: Vec<String> = Vec::new();
    let mut c = cfg();
    c.summary_chunk_tokens = 256;
    let t = Translator::new(film(3), &vec![200, 200, 200], store(), c);
    let mut prompts: Vec<String> = Vec::new();
    let (_, stats) = run(t, &mut |r| {
        if r.array {
            prompts.push(r.prompt.clone());
            return translated(r);
        }
        asked.push(r.prompt.clone());
        let n = asked.len();
        let mut k = known();
        k.summary = format!(" 摘要{n} ");
        k.glossary[0].source = format!("词{n}");
        if n == 2 {
            return Event::Context(Reply::Failed);
        }
        Event::Context(Reply::Parsed(k))
    });
    // the second chunk failed once and was asked for again
    assert_eq!(
        asked,
        vec!["SUM:原文1", "SUM:原文2", "SUM:原文2", "SUM:原文3", "SUM:摘要1\n摘要3\n摘要4"]
    );
    assert_eq!((stats.summary_chunks, stats.retries), (3, 1));
    assert!(prompts[0].contains(" 摘要5 - 词5 -> b\n- 词1 -> b\n- 词3 -> b\n- 词4 -> b （无） "));
}

#[test]
fn copies_are_asked_for_again_and_the_best_reply_is_taken() {
    let source = "今日は良い天気です";
    let list = vec![seg(1, source), seg(2, source)];
    let mut prompts: Vec<String> = Vec::new();
    let t = Translator::new(list, &counts(2), store(), cfg());
    let (out, stats) = run(t, &mut |r| {
        if !r.array {
            return Event::Context(Reply::Parsed(known()));
        }
        prompts.push(r.prompt.clone());
        if prompts.len() == 1 {
            Event::Items(Reply::Parsed(vec![item(1, "今天天气很好"), item(2, source)]))
        } else {
            Event::Items(Reply::Parsed(vec![item(1, source), item(2, source)]))
        }
    });
    assert_eq!(texts(&out), vec!["今天天气很好", source]);
    assert_eq!(prompts.len(), 2);
    let hint = &prompts[1][prompts[0].len()..];
    assert!(hint.contains("每条 t 都必须是中文，条数与输入一致"), "{hint}");
    assert_eq!((stats.retries, stats.copied), (2, 1));
}

#[test]
fn unreadable_replies_are_asked_for_again_with_a_hint() {
    let mut prompts: Vec<String> = Vec::new();
    let t = Translator::new(film(1), &counts(1), store(), cfg());
    let (out, _) = run(t, &mut |r| {
        if !r.array {
            return Event::Context(Reply::Parsed(known()));
        }
        prompts.push(r.prompt.clone());
        if prompts.len() == 1 {
            Event::Items(Reply::Parsed(vec![]))
        } else {
            translated(r)
        }
    });
    assert_eq!(texts(&out), vec!["译1"]);
    assert_eq!(prompts[1], format!("{}{}", prompts[0], HINT_ARRAY));
}

#[test]
fn prompts_that_are_too_long_are_cut_in_half() {
    let mut c = cfg();
    c.batch_size = 4;
    let mut t = Translator::new(film(4), &counts(4), store(), c);
    let mut asked: Vec<Vec<i64>> = Vec::new();
    let (out, stats) = loop {
        let event = match t.action() {
            Action::Count(text) => {
                let many = text.matches("\"t\":\"原文").count() > 1;
                Event::Tokens(if text.starts_with("TR") && many { 7000 } else { 10 })
            }
            Action::Ask(r) if r.array => {
                asked.push(numbers(&r));
                translated(&r)
            }
            Action::Ask(_) => Event::Context(Reply::Parsed(known())),
            Action::Finish => break t.finish(),
        };
        t = t.step(event);
    };
    assert_eq!(asked, vec![vec![1], vec![2], vec![3], vec![4]]);
    assert_eq!(texts(&out), vec!["译1", "译2", "译3", "译4"]);
    assert_eq!((stats.splits, stats.batches), (3, 1));
}

#[test]
fn a_batch_is_not_cut_for_ever() {
    let mut c = cfg();
    c.batch_size = 64;
    let mut t = Translator::new(film(64), &counts(64), store(), c);
    let (out, stats) = loop {
        let event = match t.action() {
            Action::Count(text) => Event::Tokens(if text.starts_with("TR") { 7000 } else { 10 }),
            Action::Ask(r) if r.array => panic!("asked: {}", r.prompt),
            Action::Ask(_) => Event::Context(Reply::Parsed(known())),
            Action::Finish => break t.finish(),
        };
        t = t.step(event);
    };
    assert_eq!(stats.splits, 4);
    assert_eq!((stats.failed_batches, stats.untranslated), (1, 64));
    assert!(same_times(&out, &film(64)));
}

#[test]
fn reviews_correct_translations() {
    let mut c = cfg();
    c.review_enabled = true;
    c.residual_script = "kana".to_string();
    let mut reviews: Vec<ChatRequest> = Vec::new();
    let t = Translator::new(film(2), &counts(2), store(), c);
    let (out, stats) = run(t, &mut |r| {
        if !r.array {
            return Event::Context(Reply::Parsed(known()));
        }
        if r.prompt.starts_with("TR") {
            return Event::Items(Reply::Parsed(vec![item(1, "译一"), item(2, "译キャラ")]));
        }
        reviews.push(ChatRequest {
            system: r.system.clone(),
            prompt: r.prompt.clone(),
            seed: r.seed,
            max_new: r.max_new,
            array: r.array,
        });
        match reviews.len() {
            1 => Event::Items(Reply::Unparsable),
            2 => Event::Items(Reply::Parsed(vec![
                item(1, " 新译一 "),
                item(9, "x"),
                item(2, ""),
            ])),
            _ => Event::Items(Reply::Parsed(vec![item(2, "译角色"), item(1, "no")])),
        }
    });
    assert_eq!(texts(&out), vec!["新译一", "译角色"]);
    let first = "REV 中文 - a -> b [{\"i\":1,\"s\":\"原文1\",\"t\":\"译一\"},{\"i\":2,\"s\":\"原文2\",\"t\":\"译キャラ\"}]";
    assert_eq!(reviews[0].prompt, first);
    assert_eq!(reviews[1].prompt, first);
    assert_eq!(
        reviews[2].prompt,
        format!("REV 中文 - a -> b [{{\"i\":2,\"s\":\"原文2\",\"t\":\"译キャラ\"}}]{STRICT_HINT}")
    );
    let seed = |n: u32| 7u32.wrapping_add(n.wrapping_mul(0x9E37_79B9));
    assert_eq!((reviews[0].seed, reviews[1].seed), (seed(101), seed(102)));
    assert_eq!((stats.reviewed, stats.review_fixed, stats.residual), (3, 2, 0));
    assert!(same_times(&out, &film(2)));
}

#[test]
fn what_a_second_review_leaves_is_counted() {
    let mut c = cfg();
    c.review_enabled = true;
    c.residual_script = "kana".to_string();
    let t = Translator::new(film(1), &counts(1), store(), c);
    let (out, stats) = run(t, &mut |r| {
        if !r.array {
            return Event::Context(Reply::Parsed(known()));
        }
        if r.prompt.starts_with("TR") {
            return Event::Items(Reply::Parsed(vec![item(1, "キャラ")]));
        }
        Event::Items(Reply::Failed)
    });
    assert_eq!(texts(&out), vec!["キャラ"]);
    assert_eq!((stats.reviewed, stats.review_fixed, stats.residual), (0, 0, 1));
}

#[test]
fn answers_to_other_questions_change_nothing() {
    let t = Translator::new(film(1), &counts(1), store(), cfg());
    let t = t.step(Event::Items(Reply::Failed));
    assert!(matches!(t.action(), Action::Count(ref s) if s.starts_with("SUM:")));
}

/// The fewest batches that keep the limits, by trying every cut.
fn fewest(weights: &[usize], max_n: usize, max_total: usize) -> usize {
    if weights.is_empty() {
        return 0;
    }
    (1..=weights.len())
        .filter(|&k| k == 1 || (k <= max_n && weights[..k].iter().sum::<usize>() <= max_total))
        .map(|k| 1 + fewest(&weights[k..], max_n, max_total))
        .min()
        .unwrap()
}

#[test]
fn no_other_cut_has_fewer_batches() {
    let weights = [30, 50, 10, 70, 5, 5, 60, 64, 1, 63, 2];
    let list: Vec<SubtitleSegment> =
        weights.iter().enumerate().map(|(i, &n)| seg(i + 1, &"x".repeat(n))).collect();
    for (size, chars) in [(1, 64), (2, 64), (3, 100), (9, 64), (9, 1000)] {
        let plan = plan_batches(&list, size, chars);
        assert_eq!(plan.len(), fewest(&weights, size, chars));
    }
    let counts = vec![9, 1, 4, 12, 3, 3, 30, 2];
    let tokens: Vec<usize> = counts.iter().map(|c| c + 1).collect();
    for budget in [1, 5, 13, 20, 100] {
        assert_eq!(plan_chunks(&counts, budget).len(), fewest(&tokens, 99, budget));
    }
}

#[test]
fn a_subtitle_with_text_is_never_left_without() {
    let replies: [fn(i64) -> TranslateItem; 3] =
        [|i| item(i, " \n "), |i| item(i, ""), |i| item(i + 1, "\u{3000}")];
    for reply in replies {
        let mut c = cfg();
        c.review_enabled = true;
        let t = Translator::new(film(5), &counts(5), store(), c);
        let (out, _) = run(t, &mut |r| {
            if !r.array {
                return Event::Context(Reply::Parsed(known()));
            }
            if r.prompt.starts_with("REV") {
                return Event::Items(Reply::Parsed((1..=5).map(reply).collect()));
            }
            Event::Items(Reply::Parsed(numbers(r).into_iter().map(reply).collect()))
        });
        assert_eq!(texts(&out), vec!["原文1", "原文2", "原文3", "原文4", "原文5"]);
    }
}
