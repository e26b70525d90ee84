use serde_json::Value;
use subtitle_assistant::llm::chat::{
    chat_prompt, plan_generation, prefill_plan, resample_seed, wants_logits, Generation,
    PromptRefusal,
};
use subtitle_assistant::llm::reply::truncate_chars;
use subtitle_assistant::text::json::json_text;
use subtitle_assistant::llm::{extract_json, json_candidates, parse_json, repair_json};

#[derive(Debug, PartialEq)]
struct Item {
    i: i64,
    t: String,
}

fn item(v: &Value) -> Result<Item, String> {
    let i = v.get("i").and_then(|x| x.as_i64());
    let t = v.get("t").and_then(|x| x.as_str());
    match (i, t) {
        (Some(i), Some(t)) => Ok(Item {
            i,
            t: t.to_string(),
        }),
        _ => Err("missing field".to_string()),
    }
}

fn one_item(text: &str) -> Result<Item, String> {
    let v: Value = serde_json::from_str(text).map_err(|e| e.to_string())?;
    item(&v)
}

fn items(text: &str) -> Result<Vec<Item>, String> {
    let v: Value = serde_json::from_str(text).map_err(|e| e.to_string())?;
    match v.as_array() {
        Some(list) => list.iter().map(item).collect(),
        None => Err("no array".to_string()),
    }
}

#[test]
fn extract_plain_object() {
    assert_eq!(
        extract_json(r#"{"a":1}"#, false).as_deref(),
        Some(r#"{"a":1}"#)
    );
}

#[test]
fn extract_from_fenced_block_with_prose() {
    let raw = "好的，结果如下：\n```json\n{\"decision\":\"keep\",\"reason\":\"{有效}\"}\n```\n以上。";
    assert_eq!(
        extract_json(raw, false).as_deref(),
        Some("{\"decision\":\"keep\",\"reason\":\"{有效}\"}")
    );
}

#[test]
fn braces_inside_strings_do_not_confuse_scan() {
    let raw = r#"前缀 {"t":"a}b{c"} 后缀}"#;
    assert_eq!(extract_json(raw, false).as_deref(), Some(r#"{"t":"a}b{c"}"#));
}

#[test]
fn escaped_quote_inside_string() {
    let raw = r#"{"t":"他说\"好\""}"#;
    assert_eq!(extract_json(raw, false).as_deref(), Some(raw));
}

#[test]
fn extract_array_and_first_complete_one() {
    let raw = "解释：[1,2] 不是结果。真正结果：[{\"i\":1,\"t\":\"a\"}]";
    assert_eq!(extract_json(raw, true).as_deref(), Some("[1,2]"));
}

#[test]
fn first_complete_value_wins_when_output_has_trailing_garbage() {
    let raw = r#"{"i":1,"t":"abc"}{"i":2,"t":"def"#;
    assert_eq!(
        extract_json(raw, false).as_deref(),
        Some(r#"{"i":1,"t":"abc"}"#)
    );
}

#[test]
fn multiple_candidates_are_all_offered_to_parse_json() {
    let raw = r#"先给个错的 {"nope":1} 再给对的 {"i":1,"t":"a"}"#;
    let cs = json_candidates(raw, false, 6);
    assert_eq!(cs.len(), 2, "{cs:?}");
    let v = parse_json(raw, false, one_item).expect("应挑到能解析的那个");
    assert_eq!((v.i, v.t.as_str()), (1, "a"));
}

#[test]
fn no_json_at_all() {
    assert_eq!(extract_json("完全不是 JSON", false), None);
    assert_eq!(extract_json("", true), None);
}

#[test]
fn candidates_are_limited_and_distinct() {
    assert_eq!(json_candidates("[1][1][2]", true, 6), vec!["[1]", "[2]"]);
    assert_eq!(json_candidates("[1][2][3]", true, 2), vec!["[1]", "[2]"]);
    assert_eq!(json_candidates("[[1]]", true, 6), vec!["[[1]]", "[1]"]);
}

#[test]
fn cut_off_output_gives_the_outer_stretch() {
    assert_eq!(
        json_candidates(r#"x {"a":"b}" "#, false, 6),
        vec![r#"{"a":"b}"#]
    );
    assert!(json_candidates("} {", false, 6).is_empty());
    assert_eq!(json_candidates("[1] [2]", true, 0), vec!["[1] [2]"]);
}

#[test]
fn repair_trailing_commas() {
    assert_eq!(
        repair_json(r#"{"a":1,"b":[1,2,],}"#),
        r#"{"a":1,"b":[1,2]}"#
    );
    assert_eq!(repair_json(r#"{"a":"x,}"}"#), r#"{"a":"x,}"}"#);
}

#[test]
fn repair_looks_past_white_space() {
    assert_eq!(repair_json("[1 , \n ]"), "[1  \n ]");
    assert_eq!(repair_json("[1,,]"), "[1,]");
    assert_eq!(repair_json("a,"), "a,");
}

#[test]
fn parse_json_repairs_and_succeeds() {
    let raw = "```json\n[{\"i\":1,\"t\":\"你好\",},]\n```";
    let v = parse_json(raw, true, items).expect("应修复后解析成功");
    assert_eq!(
        v,
        vec![Item {
            i: 1,
            t: "你好".into()
        }]
    );
}

#[test]
fn parse_json_error_message_is_useful() {
    let e = parse_json("没有 JSON", true, items).unwrap_err();
    assert!(e.contains("未找到 JSON"), "{e}");
    let e = parse_json(r#"[{"i":"x"}]"#, true, items).unwrap_err();
    assert!(e.contains("字段不符"), "{e}");
}

#[test]
fn parse_json_error_messages_in_full() {
    let e = parse_json("没有\nJSON", true, items).unwrap_err();
    assert_eq!(e, "输出中未找到 JSON（没有 JSON）");
    let e = parse_json(r#"[{"i":"x"}]"#, true, items).unwrap_err();
    assert_eq!(e, "JSON 字段不符（missing field：[{\"i\":\"x\"}]）");
}

#[test]
fn parse_json_picks_the_candidate_that_fits() {
    let raw = "解释：[1,2] 不是结果。真正结果：[{\"i\":1,\"t\":\"a\"}]";
    let v = parse_json(raw, true, items).expect("应跳过不匹配的候选");
    assert_eq!(
        v,
        vec![Item {
            i: 1,
            t: "a".into()
        }]
    );
}

#[test]
fn long_texts_are_shortened() {
    let v: Vec<char> = "日本語".chars().collect();
    assert_eq!(truncate_chars(&v, 2), "日本…");
    assert_eq!(truncate_chars(&v, 3), "日本語");
}

#[test]
fn prompts_are_framed() {
    assert_eq!(
        chat_prompt("S", "U"),
        "<|im_start|>system\nS<|im_end|>\n<|im_start|>user\nU<|im_end|>\n<|im_start|>assistant\n"
    );
}

#[test]
fn every_attempt_draws_from_its_own_seed() {
    assert_eq!(resample_seed(7, 0), 7);
    for attempt in [1usize, 2, 3, 101, 102, 4_000_000_000] {
        let want = 42u32.wrapping_add((attempt as u32).wrapping_mul(0x9E37_79B9));
        assert_eq!(resample_seed(42, attempt), want);
    }
    assert_eq!(resample_seed(u32::MAX, 1), 0x9E37_79B8);
    for (a, b) in [(0usize, 0usize), (1, 2), (100, 2), (4_000_000_000, 4_000_000_000)] {
        assert_eq!(resample_seed(resample_seed(7, a), b), resample_seed(7, a + b));
    }
    let drawn: Vec<u32> = (0..200).map(|n| resample_seed(9, n)).collect();
    for (i, a) in drawn.iter().enumerate() {
        assert!(!drawn[i + 1..].contains(a));
    }
}

#[test]
fn prompts_must_leave_room() {
    assert_eq!(plan_generation(100, 4096, 256), Ok(356));
    assert_eq!(plan_generation(4000, 4096, 256), Ok(4092));
    assert_eq!(plan_generation(4079, 4096, 256), Ok(4092));
    let full = plan_generation(4080, 4096, 256);
    assert_eq!(
        full,
        Err(PromptRefusal::TooLong {
            tokens: 4080,
            n_ctx: 4096
        })
    );
    assert_eq!(
        full.unwrap_err().message(),
        "Prompt 长度（4080 tokens）超出上下文（4096 tokens），请减小批次或增大 --ctx-size"
    );
    assert_eq!(plan_generation(0, 4096, 256), Err(PromptRefusal::Empty));
    assert_eq!(PromptRefusal::Empty.message(), "Prompt 分词结果为空");
}

#[test]
fn prompts_go_in_pieces() {
    assert_eq!(prefill_plan(10, 4), vec![(0, 4), (4, 8), (8, 10)]);
    assert_eq!(prefill_plan(8, 4), vec![(0, 4), (4, 8)]);
    assert_eq!(prefill_plan(3, 512), vec![(0, 3)]);
    assert_eq!(prefill_plan(2, 0), vec![(0, 1), (1, 2)]);
    assert!(prefill_plan(0, 4).is_empty());
    assert!(wants_logits(9, 10));
    assert!(!wants_logits(8, 10));
}

#[test]
fn generation_ends_at_an_end_token_or_at_the_limit() {
    let mut g = Generation::start(5, 8);
    assert!(g.goes_on());
    assert_eq!(g.take_token(false, Some("你".to_string())), Some(5));
    assert_eq!(g.take_token(false, None), Some(6));
    assert_eq!(g.take_token(true, Some("x".to_string())), None);
    assert!(!g.goes_on());
    assert!(!g.truncated());
    assert_eq!(g.text, "你");

    let mut h = Generation::start(5, 6);
    assert_eq!(h.take_token(false, Some("a".to_string())), Some(5));
    assert!(!h.goes_on());
    assert!(h.truncated());
}

#[test]
fn literals_hold_any_text() {
    for text in ["]", "[\"", "a\\", "\\\"]", "\n,]", "\u{1}"] {
        let raw = format!("x [{}] y]", json_text(text));
        let want = format!("[{}]", json_text(text));
        assert_eq!(extract_json(&raw, true), Some(want.clone()));
        assert_eq!(repair_json(&want), want);
    }
}

#[test]
fn the_first_guess_is_the_same_for_every_limit() {
    for s in ["[1] [2] [3]", "x [[1]] [2", "none", "] [", "[\"]\" [1]", "a [1] [1] [2]"] {
        let one = json_candidates(s, true, 1);
        for limit in 2..5 {
            let some = json_candidates(s, true, limit);
            assert_eq!(some.first(), one.first());
        }
    }
    assert_eq!(json_candidates("[1] [2]", true, 1), vec!["[1]"]);
    assert_eq!(json_candidates("[1] [2]", true, 9)[0], "[1]");
}
