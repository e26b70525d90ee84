use std::path::Path;
use subtitle_assistant::prompt::{not_loaded_message, placeholders, PromptStore};
use subtitle_assistant::text::table::TextMap;

fn store_with(name: &str, body: &str) -> PromptStore {
    let mut store = PromptStore::new("prompts");
    store.insert(name, body);
    store
}

fn vars(pairs: &[(&str, &str)]) -> TextMap {
    let mut map = TextMap::new();
    for (k, v) in pairs {
        map.insert(k, v);
    }
    map
}

fn rendered(store: &PromptStore, file: &str, pairs: &[(&str, &str)]) -> String {
    match store.render(file, &vars(pairs)) {
        Ok(t) => t,
        Err(e) => panic!("{}", e.message()),
    }
}

fn refused(store: &PromptStore, file: &str, pairs: &[(&str, &str)]) -> String {
    match store.render(file, &vars(pairs)) {
        Ok(t) => panic!("{t}"),
        Err(e) => e.message(),
    }
}

#[test]
fn substitutes_all_placeholders() {
    let s = store_with("a.txt", "从 {{src}} 到 {{dst}}：{{text}}");
    let out = rendered(
        &s,
        "a.txt",
        &[("src", "日语"), ("dst", "中文"), ("text", "こんにちは")],
    );
    assert_eq!(out, "从 日语 到 中文：こんにちは");
}

#[test]
fn unknown_placeholder_is_an_error() {
    let s = store_with("b.txt", "{{source_lang}} -> {{target_lang}}");
    let e = refused(&s, "b.txt", &[("source_lang", "ja")]);
    assert!(e.contains("target_lang"), "{e}");
}

#[test]
fn missing_variable_message_in_full() {
    let s = store_with("b.txt", "{{x}} {{y}}");
    let e = refused(&s, "b.txt", &[("b", "1"), ("x", "2"), ("a", "3"), ("b", "4")]);
    assert_eq!(
        e,
        "提示词 b.txt 需要变量 {{y}}，但代码没有提供（已提供: a, b, x）"
    );
}

#[test]
fn values_are_not_rescanned() {
    let s = store_with("c.txt", "A={{a}} B={{b}}");
    let out = rendered(&s, "c.txt", &[("a", "{{b}}"), ("b", "X")]);
    assert_eq!(out, "A={{b}} B=X");
}

#[test]
fn json_examples_with_single_braces_are_left_alone() {
    let s = store_with("d.txt", "输出 {\"i\":1,\"t\":\"x\"} 与 {{text}}");
    let out = rendered(&s, "d.txt", &[("text", "T")]);
    assert_eq!(out, "输出 {\"i\":1,\"t\":\"x\"} 与 T");
}

#[test]
fn placeholder_key_may_contain_spaces() {
    let s = store_with("e.txt", "[{{ text }}]");
    let out = rendered(&s, "e.txt", &[("text", "T")]);
    assert_eq!(out, "[T]");
}

#[test]
fn missing_file_reports_dir() {
    let s = PromptStore::new("./definitely-not-here");
    let e = refused(&s, "nope.txt", &[]);
    assert!(e.contains("读取提示词失败"), "{e}");
    assert!(e.contains("./definitely-not-here"), "{e}");
}

#[test]
fn missing_file_message_in_full() {
    let s = PromptStore::new("./none");
    assert_eq!(
        refused(&s, "a.txt", &[]),
        "读取提示词失败: \"./none/a.txt\"（提示词目录 \"./none\"）"
    );
    assert_eq!(
        not_loaded_message("'a/b'", "'a'"),
        "读取提示词失败: 'a/b'（提示词目录 'a'）"
    );
}

#[test]
fn paths_are_shown_in_quotes() {
    for dir in ["", "a\"\\b/", "\u{1b}[1m", "\u{7f}\0\t", "\u{200b}", "\u{301}x", "it's", "提示"] {
        for file in ["a.txt", "a\n.txt", "/a.txt", "\u{85}\u{feff}"] {
            let path = Path::new(dir).join(file);
            assert_eq!(
                refused(&PromptStore::new(dir), file, &[]),
                format!("读取提示词失败: {:?}（提示词目录 {:?}）", path, Path::new(dir))
            );
        }
    }
}

#[test]
fn every_character_is_shown_as_in_a_path() {
    for first in (0..0x11_0000u32).step_by(256) {
        let some: String = (first..first + 256).filter_map(char::from_u32).collect();
        let store = PromptStore::new(&some);
        assert_eq!(
            refused(&store, "/f", &[]),
            format!("读取提示词失败: \"/f\"（提示词目录 {:?}）", Path::new(&some))
        );
    }
}

#[test]
fn paths_are_parted_as_the_store_says() {
    let mut s = PromptStore::new("C:\\p");
    s.separator = '\\';
    assert_eq!(
        refused(&s, "a.txt", &[]),
        format!("读取提示词失败: {:?}（提示词目录 {:?}）", "C:\\p\\a.txt", "C:\\p")
    );
}

#[test]
fn placeholders_extraction() {
    let p = placeholders("{{a}} x {{ b }} y {not} z {{a}}");
    assert!(p.contains(&"a".to_string()));
    assert!(p.contains(&"b".to_string()));
    assert_eq!(p.len(), 2);
}

#[test]
fn odd_marks() {
    assert!(placeholders("{{}} {{ {x}} {{open").is_empty());
    let s = store_with("f.txt", "{{}} {{a}} {{open");
    assert_eq!(rendered(&s, "f.txt", &[("a", "1")]), "{{}} 1 {{open");
    let plain = store_with("g.txt", "no marks { at } all");
    assert_eq!(rendered(&plain, "g.txt", &[]), "no marks { at } all");
}

#[test]
fn unused_names_are_found() {
    let s = store_with("h.txt", "{{a}}");
    let names = vec!["a".to_string(), "b".to_string()];
    assert_eq!(s.unused("h.txt", &names), vec!["b"]);
    assert!(s.unused("none.txt", &names).is_empty());
}
