use subtitle_assistant::srt::cue::{distribute, sentence_ends};
use subtitle_assistant::srt::{
    checked_parse_srt, display_width, format_timestamp, layout, parse_srt, parse_ts, render_srt,
    split_long_cue, wrap_text, CueLimit, SrtError,
};
use subtitle_assistant::types::SubtitleSegment;

fn seg(s: u64, e: u64, t: &str) -> SubtitleSegment {
    SubtitleSegment {
        index: 0,
        start_ms: s,
        end_ms: e,
        text: t.to_string(),
    }
}

fn secs(s: &SubtitleSegment) -> f64 {
    s.duration_ms() as f64 / 1000.0
}

/// What a limit in seconds means for one subtitle.
fn limit(s: &SubtitleSegment, max_cue_secs: f64) -> CueLimit {
    let dur = secs(s);
    let too_long = !(max_cue_secs <= 0.0 || dur <= max_cue_secs);
    if !too_long {
        return CueLimit {
            too_long,
            parts: 2,
            max_chars: 0,
        };
    }
    let parts = (dur / max_cue_secs).ceil().max(2.0) as usize;
    let total = s.text.chars().count().max(1);
    let mut max_chars = 0usize;
    while max_chars < total && (max_chars + 1) as f64 / total as f64 * dur <= max_cue_secs {
        max_chars += 1;
    }
    CueLimit {
        too_long,
        parts,
        max_chars,
    }
}

fn limits(list: &[SubtitleSegment], max_cue_secs: f64) -> Vec<CueLimit> {
    list.iter().map(|s| limit(s, max_cue_secs)).collect()
}

#[test]
fn timestamp_format() {
    assert_eq!(format_timestamp(0), "00:00:00,000");
    assert_eq!(format_timestamp(1_000), "00:00:01,000");
    assert_eq!(format_timestamp(3_723_456), "01:02:03,456");
    assert_eq!(format_timestamp(36_000_000), "10:00:00,000");
}

#[test]
fn timestamp_of_many_hours() {
    assert_eq!(format_timestamp(360_000_000), "100:00:00,000");
    assert_eq!(format_timestamp(u64::MAX), "5124095576030:25:51,615");
}

#[test]
fn timestamp_parse_variants() {
    assert_eq!(parse_ts("01:02:03,456"), Some(3_723_456));
    assert_eq!(parse_ts("01:02:03.456"), Some(3_723_456));
    assert_eq!(parse_ts("02:03,456"), Some(123_456));
    assert_eq!(parse_ts("garbage"), None);
}

#[test]
fn timestamp_parse_edges() {
    assert_eq!(parse_ts("00:00:07"), Some(7_000));
    assert_eq!(parse_ts("00:00:01,5"), Some(1_005));
    assert_eq!(parse_ts("00:00:01,000 X1:40"), Some(1_000));
    assert_eq!(parse_ts("+1:+2:+3,+4"), Some(3_723_004));
    assert_eq!(parse_ts("1:2:3:4"), None);
    assert_eq!(parse_ts("00:00:,000"), None);
    assert_eq!(parse_ts(""), None);
}

#[test]
fn timestamps_read_back_as_written() {
    for ms in [0u64, 1, 999, 59_999, 3_599_999, 3_600_000, 86_399_999, 400_000_000_001] {
        assert_eq!(parse_ts(&format_timestamp(ms)), Some(ms));
    }
}

#[test]
fn srt_roundtrip() {
    let v = vec![seg(0, 1500, "第一句"), seg(1500, 4000, "第二句\n换行")];
    let text = render_srt(&v);
    let back = parse_srt(&text);
    assert_eq!(back.len(), 2);
    assert_eq!(back[0].text, "第一句");
    assert_eq!(back[1].text, "第二句\n换行");
    assert_eq!((back[1].start_ms, back[1].end_ms), (1500, 4000));
    assert_eq!((back[0].index, back[1].index), (1, 2));
}

#[test]
fn srt_file_text() {
    let v = vec![seg(0, 1500, "  第一句 "), seg(1500, 4000, "b")];
    assert_eq!(
        render_srt(&v),
        "1\n00:00:00,000 --> 00:00:01,500\n第一句\n\n2\n00:00:01,500 --> 00:00:04,000\nb\n\n"
    );
    assert_eq!(render_srt(&[]), "");
}

#[test]
fn srt_roundtrip_lengthens_empty_spans() {
    let back = parse_srt(&render_srt(&[seg(500, 500, "x"), seg(900, 100, "y")]));
    assert_eq!((back[0].start_ms, back[0].end_ms), (500, 501));
    assert_eq!((back[1].start_ms, back[1].end_ms), (900, 901));
}

#[test]
fn srt_parse_tolerates_missing_index_and_crlf() {
    let text = "00:00:01,000 --> 00:00:02,000\r\n只有时间轴没有序号\r\n\r\n2\r\n00:00:03.000 --> 00:00:04.000\r\n第二条\r\n";
    let v = parse_srt(text);
    assert_eq!(v.len(), 2);
    assert_eq!(v[0].start_ms, 1000);
    assert_eq!(v[1].text, "第二条");
}

#[test]
fn srt_parse_passes_over_what_says_nothing() {
    let text = "no times here\n\n1\n00:00:01,000 --> bad\nx\n\n2\n00:00:01,000 --> 00:00:02,000\n   \n\n3\n00:00:05,000 --> 00:00:06,000\n a \n\t\n";
    let v = parse_srt(text);
    assert_eq!(v.len(), 1);
    assert_eq!((v[0].index, v[0].text.as_str()), (1, "a"));
}

#[test]
fn srt_reading_says_why_there_is_nothing() {
    assert!(matches!(checked_parse_srt("nothing"), Err(SrtError::Empty)));
    let far = "1\n18446744073709551615:00:00,000 --> 00:00:02,000\nx\n";
    assert!(matches!(
        checked_parse_srt(far),
        Err(SrtError::TimeTooLarge)
    ));
    let ok = checked_parse_srt("1\n00:00:01,000 --> 00:00:02,000\nx\n");
    assert_eq!(ok.map(|v| v.len()).unwrap_or(0), 1);
}

#[test]
fn display_width_counts_cjk_as_two() {
    assert_eq!(display_width("abc"), 3);
    assert_eq!(display_width("日本語"), 6);
    assert_eq!(display_width("ab日本"), 6);
}

#[test]
fn wrap_respects_width_and_prefers_punctuation() {
    let s = "今日はとても良い天気なので、公園まで散歩に行くことにしました。";
    let w = wrap_text(s, 30);
    for line in w.split('\n') {
        assert!(
            display_width(line) <= 30,
            "行过宽: {line} ({})",
            display_width(line)
        );
    }
    assert!(w.contains('\n'));
    assert!(
        w.split('\n').next().unwrap().ends_with('、'),
        "首行未落在标点上: {w}"
    );
    assert_eq!(w.replace('\n', ""), s.replace('、', "、"));
}

#[test]
fn wrap_keeps_short_text_untouched() {
    assert_eq!(wrap_text("短い文", 20), "短い文");
    assert_eq!(wrap_text("hello world", 40), "hello world");
}

#[test]
fn wrap_handles_long_word_without_break_points() {
    let s = "aaaaaaaaaaaaaaaaaaaaaaaaaaaaaa";
    let w = wrap_text(s, 10);
    for line in w.split('\n') {
        assert!(display_width(line) <= 10, "行过宽: {line}");
    }
    assert_eq!(w.replace('\n', ""), s);
    assert_eq!(w.split('\n').count(), 3);
}

#[test]
fn wrap_mixed_ascii_and_cjk() {
    let s = "これは CUDA 12.4 の ggml-cuda.dll を読み込む処理です。";
    let w = wrap_text(s, 24);
    for line in w.split('\n') {
        assert!(display_width(line) <= 24, "行过宽: {line}");
    }
    assert!(w.split('\n').all(|l| !l.ends_with(' ')), "{w}");
}

#[test]
fn wrap_edges() {
    assert_eq!(wrap_text("", 10), "");
    assert_eq!(wrap_text(" \n\t\n", 10), "");
    assert_eq!(wrap_text("a\n\nb", 10), "a\nb");
    // a width below four counts as four
    assert_eq!(wrap_text("abcdefgh", 1), "abcd\nefgh");
    // a line that ends with a mark is full
    assert_eq!(wrap_text("a,bcdef,gh", 8), "a,bcdef,\ngh");
    assert_eq!(wrap_text("ab cdefgh", 6), "ab\ncdefgh");
}

#[test]
fn split_long_cue_by_punctuation() {
    let text = "第一句话在这里。第二句话也在这里。第三句话结束了。";
    let s = seg(10_000, 30_000, text);
    let parts = split_long_cue(&s, limit(&s, 8.0));
    assert!(parts.len() >= 2, "应被拆分: {:?}", parts);
    assert_eq!(parts[0].start_ms, 10_000);
    assert_eq!(parts.last().unwrap().end_ms, 30_000);
    for w in parts.windows(2) {
        assert!(w[0].end_ms <= w[1].start_ms + 1);
        assert!(w[1].end_ms > w[1].start_ms);
    }
    let joined: String = parts.iter().map(|p| p.text.as_str()).collect();
    assert_eq!(joined.replace(' ', ""), text);
}

#[test]
fn split_keeps_short_cue() {
    let s = seg(0, 3000, "短い。");
    assert_eq!(split_long_cue(&s, limit(&s, 7.0)).len(), 1);
}

#[test]
fn split_without_punctuation_is_even() {
    let s = seg(0, 20_000, "abcdefghij");
    let parts = split_long_cue(&s, limit(&s, 7.0));
    let texts: Vec<&str> = parts.iter().map(|p| p.text.as_str()).collect();
    assert_eq!(texts, vec!["abc", "def", "ghi", "j"]);
    let times: Vec<(u64, u64)> = parts.iter().map(|p| (p.start_ms, p.end_ms)).collect();
    assert_eq!(
        times,
        vec![(0, 6_000), (6_000, 12_000), (12_000, 18_000), (18_000, 20_000)]
    );
}

#[test]
fn split_leaves_blank_and_unlimited_alone() {
    let blank = seg(0, 60_000, " \n ");
    assert_eq!(split_long_cue(&blank, limit(&blank, 7.0)).len(), 1);
    let long = seg(0, 60_000, "a. b. c.");
    assert_eq!(split_long_cue(&long, limit(&long, 0.0)).len(), 1);
}

#[test]
fn clause_ends_are_found() {
    let v: Vec<char> = "甲，乙。丙".chars().collect();
    assert_eq!(sentence_ends(&v), vec![2, 4, 5]);
    assert!(sentence_ends(&[]).is_empty());
    assert_eq!(sentence_ends(&['x', '!']), vec![2]);
}

#[test]
fn parts_share_the_time_by_length() {
    let s = seg(1_000, 11_000, "");
    let parts = distribute(&s, &vec!["aa".to_string(), "bbb".to_string()]);
    assert_eq!((parts[0].start_ms, parts[0].end_ms), (1_000, 5_000));
    assert_eq!((parts[1].start_ms, parts[1].end_ms), (5_000, 11_000));
    // no part is without time
    let tight = distribute(
        &seg(5, 6, ""),
        &vec!["a".to_string(), "b".to_string(), "c".to_string()],
    );
    let times: Vec<(u64, u64)> = tight.iter().map(|p| (p.start_ms, p.end_ms)).collect();
    assert_eq!(times, vec![(5, 6), (6, 7), (7, 8)]);
}

#[test]
fn layout_renumbers_and_applies_both_rules() {
    let v = vec![
        seg(
            0,
            20_000,
            "とても長い文章です。まだまだ続きます。最後に終わります。",
        ),
        seg(20_000, 22_000, "短い"),
    ];
    let out = layout(&v, 20, &limits(&v, 7.0));
    assert!(out.len() >= 3);
    for (i, s) in out.iter().enumerate() {
        assert_eq!(s.index, i + 1);
        for line in s.text.split('\n') {
            assert!(display_width(line) <= 20, "{line}");
        }
        assert!(secs(s) <= 7.5, "{}", secs(s));
    }
    assert!(out.windows(2).all(|w| w[0].end_ms <= w[1].start_ms + 1));
}

#[test]
fn layout_leaves_out_what_has_no_text() {
    let v = vec![seg(0, 1_000, "  "), seg(1_000, 2_000, " x ")];
    let out = layout(&v, 0, &limits(&v, 7.0));
    assert_eq!(out.len(), 1);
    assert_eq!((out[0].index, out[0].text.as_str()), (1, "x"));
}

#[test]
fn late_subtitles_are_split_where_no_part_is_lengthened() {
    let s = seg(u64::MAX - 1_000, u64::MAX, "ab, cd.");
    let limit = CueLimit {
        too_long: true,
        parts: 2,
        max_chars: 3,
    };
    let parts = split_long_cue(&s, limit);
    let times: Vec<(u64, u64)> = parts.iter().map(|p| (p.start_ms, p.end_ms)).collect();
    assert_eq!(
        times,
        vec![
            (u64::MAX - 1_000, u64::MAX - 500),
            (u64::MAX - 500, u64::MAX)
        ]
    );
}

#[test]
fn clauses_are_grouped_within_the_limit() {
    let s = seg(0, 10_000, "ab, cd, ef, ghijklmnop, q.");
    let limit = CueLimit {
        too_long: true,
        parts: 2,
        max_chars: 8,
    };
    let parts = split_long_cue(&s, limit);
    let texts: Vec<&str> = parts.iter().map(|p| p.text.as_str()).collect();
    assert_eq!(texts, vec!["ab, cd,", "ef,", "ghijklmnop,", "q."]);
    assert_eq!(parts[3].end_ms, 10_000);
}

#[test]
fn wrapping_twice_changes_nothing() {
    for s in ["", " \n ", "a\n\nb ", "ab cdefgh ij", "  lead, and tail  ", "日本語の長い、字幕です。はい"] {
        for width in [0, 4, 6, 9, 40] {
            let once = wrap_text(s, width);
            assert_eq!(wrap_text(&once, width), once);
        }
    }
}

#[test]
fn layout_loses_nothing_but_white_space() {
    let v = vec![
        seg(0, 20_000, "第一句 です、二番目の　句です。三つ目！"),
        seg(20_000, 21_000, "  \n "),
        seg(21_000, 41_000, "nopunctuation at all\nhere"),
        seg(41_000, 42_000, "short"),
    ];
    let ink = |list: &[SubtitleSegment]| -> String {
        let all: String = list.iter().map(|s| s.text.as_str()).collect();
        all.split_whitespace().collect()
    };
    for width in [0, 6, 20] {
        let out = layout(&v, width, &limits(&v, 4.0));
        assert!(out.len() > 4);
        assert_eq!(ink(&out), ink(&v));
    }
}
