use course_ai::ai::{file_extension, Client, SUBTITLE_CHUNK_MAX_CHARS};
use course_ai::error::AppError;
use course_ai::model::CanvasVideoSubTitle;
use course_ai::time::format_time;

fn item(bg: u64, res: &str) -> CanvasVideoSubTitle {
    CanvasVideoSubTitle { bg, res: res.to_string() }
}

#[test]
fn compress_joins_items_into_sentences() {
    let client = Client::new();
    let items = vec![item(1000, "Hello"), item(2000, " world."), item(3000, "  "), item(4000, "Next")];
    let out = client.compress_subtitle(&items).unwrap();
    assert_eq!(out, "[00:00:01,000] Helloworld.\n[00:00:03,000] Next");
}

#[test]
fn compress_closes_on_full_width_punctuation() {
    let client = Client::new();
    let items = vec![item(0, "大家好。"), item(61_500, "今天讲卷积；"), item(62_000, "好吗？")];
    let out = client.compress_subtitle(&items).unwrap();
    assert_eq!(out, "[00:00:00,000] 大家好。\n[00:01:01,500] 今天讲卷积；\n[00:01:02,000] 好吗？");
}

#[test]
fn compress_wraps_long_sentences() {
    let client = Client::new();
    let long = "字".repeat(119);
    let items = vec![item(5, &long), item(6, "多"), item(7, "余")];
    let out = client.compress_subtitle(&items).unwrap();
    assert_eq!(out, format!("[00:00:00,005] {}多\n[00:00:00,007] 余", long));
}

#[test]
fn compress_empty_subtitle() {
    let client = Client::new();
    assert_eq!(client.compress_subtitle(&[]).unwrap(), "");
}

#[test]
fn subtitle_text_refuses_blank_transcript() {
    let client = Client::new();
    match client.subtitle_text(&[item(0, "  "), item(10, "")]) {
        Err(AppError::LLMError(m)) => assert_eq!(m, "字幕内容为空，暂时无法生成课堂笔记。"),
        _ => panic!("expected an error"),
    }
    assert_eq!(client.subtitle_text(&[item(0, "ok.")]).unwrap(), "[00:00:00,000] ok.");
}

#[test]
fn format_time_renders_hours_minutes_seconds_millis() {
    assert_eq!(format_time(3_723_004), "01:02:03,004");
    assert_eq!(format_time(0), "00:00:00,000");
    assert_eq!(format_time(360_000_000), "100:00:00,000");
}

#[test]
fn split_keeps_lines_within_bound() {
    let client = Client::new();
    let chunks = client.split_subtitle_chunks("a\n  \nbb\nccc", 4);
    assert_eq!(chunks, vec!["a\nbb".to_string(), "ccc".to_string()]);
    assert_eq!(chunks.join("\n"), "a\nbb\nccc");
}

#[test]
fn split_counts_utf8_bytes() {
    let client = Client::new();
    let chunks = client.split_subtitle_chunks("你好\n你", 6);
    assert_eq!(chunks, vec!["你好".to_string(), "你".to_string()]);
    let chunks = client.split_subtitle_chunks("你好\n你", 10);
    assert_eq!(chunks, vec!["你好\n你".to_string()]);
}

#[test]
fn split_long_line_forms_its_own_chunk() {
    let client = Client::new();
    let chunks = client.split_subtitle_chunks("ab\n  abcdefgh  \r\ncd\n", 4);
    assert_eq!(chunks, vec!["ab".to_string(), "abcdefgh".to_string(), "cd".to_string()]);
    assert!(client.split_subtitle_chunks(" \n\n ", SUBTITLE_CHUNK_MAX_CHARS).is_empty());
}

#[test]
fn prompts_embed_their_inputs() {
    let client = Client::new();
    let p = client.build_subtitle_notes_prompt("SUB");
    assert!(p.starts_with("你是一名认真负责的大学课程助教。"));
    assert!(p.ends_with("以下是字幕：\nSUB"));
    let p = client.build_chunk_extraction_prompt("CHUNK", 0, 3);
    assert!(p.starts_with("你正在为一节课整理课堂笔记。下面是第 1/3 段字幕，请先提炼这一段的结构化笔记。\n输出要求：\n1. 只输出 Markdown。\n"));
    assert!(p.ends_with("6. 不要编造未出现的信息。\n\n字幕如下：\nCHUNK"));
    let p = client.build_chunk_merge_prompt(&vec!["A".to_string(), "B".to_string()]);
    assert!(p.ends_with("阶段性笔记如下：\nA\n\n---\n\nB"));
    let p = client.build_explain_prompt("hw.pdf", "TEXT");
    assert!(p.ends_with("以下是文件的相关信息：\n            文件名：hw.pdf。\n            文件内容：TEXT"));
}

#[test]
fn file_extension_matches_std_path() {
    let cases = [
        "lecture.pdf", "a/b.tar.gz", ".bashrc", "dir/.hidden", "noext", "a.", "a/b/", "a/b.c/.",
        "x/..", "", "/", ".", "..", "...", "../a.b", "a/./b.c", "//a.b//", "a.b/..c",
    ];
    for c in cases {
        let expected = std::path::Path::new(c)
            .extension()
            .and_then(|s| s.to_str())
            .unwrap_or("")
            .to_string();
        assert_eq!(file_extension(c), expected, "path {:?}", c);
    }
}

#[test]
fn file_extension_treats_backslash_as_part_of_the_name() {
    assert_eq!(file_extension("a\\b.txt"), "txt");
    assert_eq!(file_extension("a.d\\b"), "d\\b");
    assert_eq!(file_extension("dir\\.hidden"), "hidden");
}
