use subtitle_assistant::text::json::json_text;
use subtitle_assistant::text::spaces::is_whitespace;
use subtitle_assistant::types::{
    GlobalContext, GlossaryItem, QcStats, QcVerdict, SubtitleSegment, TranslateStats,
};

fn seg(i: usize, s: u64, e: u64, t: &str) -> SubtitleSegment {
    SubtitleSegment {
        index: i,
        start_ms: s,
        end_ms: e,
        text: t.to_string(),
    }
}

fn term(source: &str, target: &str, note: Option<&str>) -> GlossaryItem {
    GlossaryItem {
        source: source.to_string(),
        target: target.to_string(),
        note: note.map(|n| n.to_string()),
    }
}

#[test]
fn compact_json_escapes_and_keeps_only_i_t() {
    let v = vec![seg(1, 0, 1000, "他说\"好\""), seg(2, 1000, 2000, "第二句")];
    let j = SubtitleSegment::compact_json_list(&v);
    assert_eq!(j, r#"[{"i":1,"t":"他说\"好\""},{"i":2,"t":"第二句"}]"#);
    assert!(!j.contains("start_ms"));
}

#[test]
fn json_literals() {
    assert_eq!(json_text("a\\b"), r#""a\\b""#);
    assert_eq!(json_text("\n\r\t\u{8}\u{c}"), r#""\n\r\t\b\f""#);
    assert_eq!(json_text("\u{1}\u{1f}\u{7f}/é日"), "\"\\u0001\\u001f\u{7f}/é日\"");
    for c in (0u32..0x300).filter_map(char::from_u32) {
        let text: String = [c, 'x'].iter().collect();
        let back: String = serde_json::from_str(&json_text(&text)).unwrap();
        assert_eq!(back, text);
    }
}

#[test]
fn white_space_is_what_the_standard_says() {
    for c in (0u32..0x11_0000).filter_map(char::from_u32) {
        assert_eq!(is_whitespace(c), c.is_whitespace(), "{:x}", c as u32);
    }
}

#[test]
fn global_context_merge_dedups_glossary() {
    let mut a = GlobalContext {
        summary: "A".into(),
        glossary: vec![term("東京", "东京", None)],
    };
    a.merge(GlobalContext {
        summary: "B".into(),
        glossary: vec![term("東京", "Tokyo", None), term("山中", "山中", None)],
    });
    assert_eq!(a.summary, "A");
    assert_eq!(a.glossary.len(), 2);
    assert_eq!(a.glossary[0].target, "东京");
}

#[test]
fn merge_completes_what_is_missing() {
    let mut a = GlobalContext::default();
    assert!(a.says_nothing());
    let b = GlobalContext {
        summary: "T".to_string(),
        glossary: vec![
            term(" x ", "1", None),
            term("  ", "2", None),
            term("x", "3", None),
        ],
    };
    a.merge(b);
    assert_eq!(a.summary, "T");
    assert_eq!(a.glossary.len(), 1);
    assert_eq!(a.glossary[0].target, "1");
    assert!(!a.says_nothing());
}

#[test]
fn glossary_as_lines() {
    assert_eq!(GlobalContext::default().glossary_as_text(), "（无）");
    let c = GlobalContext {
        summary: String::new(),
        glossary: vec![term("a", "b", None), term("c", "d", Some("e"))],
    };
    assert_eq!(c.glossary_as_text(), "- a -> b\n- c -> d（e）");
}

#[test]
fn decisions_are_normalised() {
    for (given, want) in [
        (" KEEP ", "keep"),
        ("\"Drop\"", "drop"),
        ("“fix”", "fix"),
        ("' ok'", " ok"),
        ("", ""),
        ("É", "É"),
    ] {
        let v = QcVerdict {
            decision: given.to_string(),
            valid: None,
            text: String::new(),
            reason: String::new(),
        };
        assert_eq!(v.normalized_decision(), want);
    }
}

#[test]
fn summaries_name_every_counter() {
    let q = QcStats {
        total: 1,
        kept: 2,
        fixed: 3,
        dropped: 4,
        failed: 5,
        fix_rejected: 6,
        drop_rejected: 7,
        retries: 8,
    };
    assert_eq!(
        q.summary(),
        "质检 1 句：保留 2，纠正 3，丢弃 4，解析失败兜底 5，纠正被拒 6，丢弃被拒 7，重试 8"
    );
    let t = TranslateStats {
        segments: 1,
        batches: 2,
        retries: 3,
        failed_batches: 4,
        positional: 5,
        copied: 6,
        untranslated: 7,
        reviewed: 8,
        review_fixed: 9,
        residual: 10,
        summary_chunks: 11,
        splits: 12,
    };
    assert_eq!(
        t.summary(),
        "翻译 1 条 / 2 批：重试 3，拆分 12，整批失败 4，位置兜底 5，照抄 6，未翻译 7，自检 8/修正 9，残留 10，摘要分块 11"
    );
}

#[test]
fn merging_again_changes_nothing() {
    let extra = || GlobalContext {
        summary: "T".to_string(),
        glossary: vec![term("x", "1", None), term(" x", "2", None), term("y", "3", None)],
    };
    let mut a = GlobalContext {
        summary: String::new(),
        glossary: vec![term("y", "0", None)],
    };
    a.merge(extra());
    let once = a.glossary_as_text();
    a.merge(extra());
    assert_eq!(a.glossary_as_text(), once);
    assert_eq!(once, "- y -> 0\n- x -> 1");
}
