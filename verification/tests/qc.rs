use subtitle_assistant::prompt::PromptStore;
use subtitle_assistant::qc::{decide, read_verdict, Decision, QcStep, QcTask, QualityChecker};
use subtitle_assistant::translate::ask::Reply;
use subtitle_assistant::types::{QcVerdict, SubtitleSegment};

fn verdict(decision: &str, valid: Option<bool>, text: &str) -> QcVerdict {
    QcVerdict {
        decision: decision.to_string(),
        valid,
        text: text.to_string(),
        reason: String::new(),
    }
}

fn seg(t: &str) -> SubtitleSegment {
    SubtitleSegment {
        index: 0,
        start_ms: 0,
        end_ms: 1500,
        text: t.to_string(),
    }
}

fn store() -> PromptStore {
    let mut s = PromptStore::new("prompts");
    s.insert("qc_segment.txt", "{{context}}|{{text}}|{{duration}}");
    s
}

fn asked(step: QcStep) -> QcTask {
    match step {
        QcStep::Ask(t) => t,
        _ => panic!("nothing asked"),
    }
}

#[test]
fn verdicts_are_understood() {
    for word in ["drop", "Noise", "invalid", "reject", "DISCARD"] {
        assert_eq!(decide(&verdict(word, None, "x")), Decision::Drop);
    }
    for word in ["fix", "correct", "corrected", "rewrite"] {
        assert_eq!(decide(&verdict(word, None, "x")), Decision::Fix);
        assert_eq!(decide(&verdict(word, None, "  ")), Decision::FixRejected);
    }
    for word in ["keep", "ok", "valid", "true", "whatever"] {
        assert_eq!(decide(&verdict(word, Some(false), "x")), Decision::Keep);
    }
    assert_eq!(decide(&verdict("", Some(true), "")), Decision::Keep);
    assert_eq!(decide(&verdict(" ", Some(false), "")), Decision::Drop);
    assert_eq!(decide(&verdict("", None, "")), Decision::Keep);
}

#[test]
fn sentences_are_asked_about_with_their_context() {
    let mut c = QualityChecker::new(2);
    let mut s = seg("一");
    let t = asked(c.begin(&store(), &s, "1.5"));
    assert_eq!(t.prompt, "（这是第一句，暂无上文）|一|1.5");
    let step = c.answer(t, Reply::Parsed(verdict("keep", None, "")), &mut s);
    assert!(matches!(step, QcStep::Kept));

    let mut s = seg("二");
    let t = asked(c.begin(&store(), &s, "2.0"));
    assert_eq!(t.prompt, "1. 一|二|2.0");
    let step = c.answer(t, Reply::Parsed(verdict("fix", None, " 二二 ")), &mut s);
    assert!(matches!(step, QcStep::Kept));
    assert_eq!(s.text, "二二");

    let mut s = seg("嘘");
    let t = asked(c.begin(&store(), &s, "2.0"));
    let step = c.answer(t, Reply::Parsed(verdict("drop", None, "")), &mut s);
    assert!(matches!(step, QcStep::Dropped));
    assert_eq!(s.text, "嘘");

    let mut s = seg("三");
    let t = asked(c.begin(&store(), &s, "2.0"));
    assert_eq!(t.prompt, "1. 一\n2. 二二|三|2.0");
    let step = c.answer(t, Reply::Failed, &mut s);
    assert!(matches!(step, QcStep::Kept));
    assert_eq!(c.history, vec!["二二", "三"]);

    let q = c.stats();
    assert_eq!((q.total, q.kept, q.fixed, q.dropped, q.failed), (4, 2, 1, 1, 1));
    assert_eq!(q.total, q.kept + q.fixed + q.dropped);
}

#[test]
fn unreadable_verdicts_are_asked_for_once_more() {
    let mut c = QualityChecker::new(0);
    let mut s = seg("一");
    let t = asked(c.begin(&store(), &s, "1.5"));
    let t = asked(c.answer(t, Reply::Unparsable, &mut s));
    assert_eq!(t.attempt, 2);
    assert_eq!(c.stats().kept, 0);
    let step = c.answer(t, Reply::Unparsable, &mut s);
    assert!(matches!(step, QcStep::Kept));
    assert_eq!((c.stats().kept, c.stats().failed), (1, 1));
    assert_eq!(c.context_size, 1);
}

#[test]
fn corrections_without_text_keep_the_sentence() {
    for word in ["fix", "correct", "corrected", "rewrite"] {
        let mut c = QualityChecker::new(3);
        let mut s = seg("你好");
        assert!(c.apply(&verdict(word, None, "  "), &mut s));
        assert_eq!(s.text, "你好");
        assert_eq!(c.history, vec!["你好"]);
        let q = c.stats();
        assert_eq!((q.kept, q.fix_rejected, q.fixed, q.dropped), (1, 1, 0, 0));
    }
}

#[test]
fn any_sentences_are_accounted_for() {
    let mut c = QualityChecker::new(2);
    let mut passed: Vec<String> = Vec::new();
    let replies = ["keep", "fix", "drop", "blank", "failed", "keep", "drop"];
    for (i, r) in replies.iter().enumerate() {
        let mut s = seg(&format!("句{i}"));
        let t = asked(c.begin(&store(), &s, "1.0"));
        let reply = match *r {
            "fix" => Reply::Parsed(verdict("fix", None, "改")),
            "blank" => Reply::Parsed(verdict("fix", None, "")),
            "failed" => Reply::Failed,
            word => Reply::Parsed(verdict(word, None, "")),
        };
        if matches!(c.answer(t, reply, &mut s), QcStep::Kept) {
            passed.push(s.text);
        }
        let q = c.stats();
        assert_eq!(q.total, i + 1);
        assert_eq!(q.total, q.kept + q.fixed + q.dropped);
        assert_eq!(passed.len(), q.kept + q.fixed);
        assert!(q.failed + q.fix_rejected <= q.kept);
        assert_eq!(c.history, passed[passed.len().saturating_sub(2)..].to_vec());
    }
    assert_eq!(passed, vec!["句0", "改", "句3", "句4", "句5"]);
}

#[test]
fn a_missing_prompt_loses_no_sentence() {
    let mut c = QualityChecker::new(3);
    let step = c.begin(&PromptStore::new("nowhere"), &seg("一"), "1.5");
    assert!(matches!(step, QcStep::Kept));
    assert_eq!((c.stats().total, c.stats().kept, c.stats().failed), (1, 1, 1));
    assert_eq!(c.history, vec!["一"]);
}

#[test]
fn verdicts_are_read_from_the_first_object() {
    let decode = |text: &str| {
        let v: serde_json::Value = serde_json::from_str(text).map_err(|e| e.to_string())?;
        match v.get("decision").and_then(|d| d.as_str()) {
            Some(d) => Ok(verdict(d, None, "")),
            None => Err("no decision".to_string()),
        }
    };
    match read_verdict("好 {\"decision\":\"drop\"} {\"decision\":\"keep\"}", decode) {
        Reply::Parsed(v) => assert_eq!(v.decision, "drop"),
        _ => panic!("not read"),
    }
    assert!(matches!(read_verdict("{\"x\":1}", decode), Reply::Unparsable));
    assert!(matches!(read_verdict("drop", decode), Reply::Unparsable));
}
