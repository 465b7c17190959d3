use course_ai::ai::Client;
use course_ai::llm::chat::{
    normalize_api_root, normalize_base_url, normalize_config, normalize_model, normalize_models_url,
    strip_think_blocks,
};
use course_ai::model::{CanvasVideoSubTitle, LLMChatResponse, LLMConfig};
use course_ai::summary::SubtitleSummaryJob;

#[test]
fn normalizing_twice_is_normalizing_once() {
    let c = LLMConfig {
        name: " n ".to_string(),
        base_url: "  ".to_string(),
        model: "".to_string(),
        api_key: "k".to_string(),
        enabled: true,
    };
    let once = normalize_config(&c);
    let twice = normalize_config(&once);
    assert_eq!((once.base_url.as_str(), once.model.as_str()), (twice.base_url.as_str(), twice.model.as_str()));
    assert_eq!(normalize_model(&normalize_model(" m ")), normalize_model(" m "));
    assert_eq!(normalize_model(&normalize_model(" ")), "deepseek-chat");
}

#[test]
fn answers_without_think_tags_keep_their_text() {
    assert_eq!(strip_think_blocks("a <b> c  \n d\t"), "a <b> c\n d");
}

#[test]
fn chunk_answers_recorded_in_any_order_merge_alike() {
    let client = Client::new();
    let line = "a".repeat(20000);
    let transcript = format!("{}\n{}", line, line);
    let answer = |c: &str| LLMChatResponse { content: c.to_string(), reasoning_content: String::new() };
    let mut first = SubtitleSummaryJob::new(&client, "x", transcript.clone());
    first.record_chunk(0, answer("A"));
    first.record_chunk(1, answer("B"));
    let mut second = SubtitleSummaryJob::new(&client, "x", transcript);
    second.record_chunk(1, answer("B"));
    second.record_chunk(0, answer("A"));
    assert_eq!(first.merge_prompt(&client), second.merge_prompt(&client));
}

#[test]
fn compression_keeps_all_text_in_order() {
    let client = Client::new();
    let items: Vec<CanvasVideoSubTitle> = ["  a ", "b.", "", "c!", " d"]
        .iter()
        .enumerate()
        .map(|(i, t)| CanvasVideoSubTitle { bg: i as u64 * 1000, res: t.to_string() })
        .collect();
    let out = client.compress_subtitle(&items).unwrap();
    let texts: String = out.lines().map(|l| l.split_once("] ").unwrap().1).collect();
    assert_eq!(texts, "ab.c!d");
    assert_eq!(out, "[00:00:00,000] ab.\n[00:00:02,000] c!\n[00:00:04,000] d");
}

#[test]
fn endpoints_give_back_their_root() {
    for x in ["", "  https://x.com/v1/ ", "https://x.com/models", "/chat/completions", "a/models/chat/completions"] {
        let root = normalize_api_root(x);
        assert_eq!(normalize_api_root(&normalize_base_url(x)), root);
        assert_eq!(normalize_api_root(&normalize_models_url(x)), root);
    }
}
