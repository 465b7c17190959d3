use course_ai::ai::Client;
use course_ai::model::LLMChatResponse;
use course_ai::summary::{
    chunking_progress, preparing_progress, provided_subtitle, SubtitleSummaryJob,
};

fn answer(content: &str, reasoning: &str) -> LLMChatResponse {
    LLMChatResponse { content: content.to_string(), reasoning_content: reasoning.to_string() }
}

#[test]
fn short_transcript_goes_out_whole() {
    let client = Client::new();
    let mut job = SubtitleSummaryJob::new(&client, "t1", "[00:00:00,000] hi.".to_string());
    assert!(job.is_single());
    assert!(job.single_prompt().ends_with("以下是字幕：\n[00:00:00,000] hi."));
    let p = job.single_start_progress();
    assert_eq!((p.uuid.as_str(), p.stage.as_str(), p.processed, p.total), ("t1", "summarizing", 0, 1));
    assert_eq!(p.message, "正在发送完整字幕给 AI…");
    let p = job.single_done_progress();
    assert_eq!((p.stage.as_str(), p.processed, p.total), ("done", 1, 1));
    let r = job.finish_single(answer("# Notes", "why"));
    assert_eq!(r.markdown, "# Notes");
    assert_eq!(r.reasoning_content, "why");
    assert_eq!(r.subtitle_content, "[00:00:00,000] hi.");
}

#[test]
fn long_transcript_goes_out_in_chunks() {
    let client = Client::new();
    let line = "字".repeat(5000);
    let transcript = format!("{}\n{}", line, line);
    let mut job = SubtitleSummaryJob::new(&client, "t2", transcript.clone());
    assert!(!job.is_single());
    assert_eq!(job.chunk_count(), 2);
    assert_eq!(job.concurrency(), 2);
    assert_eq!(job.total_steps(), 3);
    let p = job.chunks_start_progress();
    assert_eq!(p.message, "字幕较长，正在分 2 段发送给 AI…");
    assert_eq!((p.processed, p.total), (0, 3));
    assert!(job.chunk_prompt(&client, 1).contains("下面是第 2/2 段字幕"));
    let p = job.record_chunk(1, answer("second", "  "));
    assert_eq!(p.message, "已完成 1/2 段字幕总结…");
    let p = job.record_chunk(0, answer("first", " think "));
    assert_eq!((p.processed, p.total), (2, 3));
    assert_eq!(p.message, "已完成 2/2 段字幕总结…");
    assert!(job.merge_prompt(&client).ends_with("阶段性笔记如下：\nfirst\n\n---\n\nsecond"));
    let p = job.merging_progress();
    assert_eq!((p.stage.as_str(), p.processed, p.total), ("merging", 2, 3));
    let p = job.done_progress();
    assert_eq!((p.stage.as_str(), p.processed, p.total), ("done", 3, 3));
    let r = job.finish(answer("# Final", " merged "));
    assert_eq!(r.markdown, "# Final");
    assert_eq!(r.reasoning_content, "## 分段 1 思考内容\n\nthink\n\n---\n\n## 最终合并思考内容\n\nmerged");
    assert_eq!(r.subtitle_content, transcript);
}

#[test]
fn merged_reasoning_can_be_empty() {
    let client = Client::new();
    let line = "a".repeat(20000);
    let mut job = SubtitleSummaryJob::new(&client, "t3", format!("{}\n{}", line, line));
    assert_eq!(job.chunk_count(), 2);
    job.record_chunk(0, answer("x", ""));
    job.record_chunk(1, answer("y", ""));
    let r = job.finish(answer("z", " "));
    assert_eq!(r.reasoning_content, "");
}

#[test]
fn preparation_reports_and_provided_subtitle() {
    assert_eq!(provided_subtitle(Some("  ".to_string())), None);
    assert_eq!(provided_subtitle(None), None);
    assert_eq!(provided_subtitle(Some(" x ".to_string())), Some(" x ".to_string()));
    let p = preparing_progress("id", true);
    assert_eq!((p.stage.as_str(), p.message.as_str()), ("preparing", "字幕已准备完成，正在发送给 AI…"));
    let p = preparing_progress("id", false);
    assert_eq!(p.message, "正在获取并整理字幕…");
    let p = chunking_progress("id");
    assert_eq!((p.stage.as_str(), p.processed, p.total), ("chunking", 0, 0));
    assert_eq!(p.message, "正在分析字幕长度并规划发送方式…");
}

#[test]
fn emit_hands_the_report_to_the_handler() {
    let seen = std::cell::RefCell::new(Vec::new());
    let handler = |p: course_ai::model::SubtitleSummaryProgressPayload| seen.borrow_mut().push(p);
    course_ai::summary::emit_subtitle_summary_progress(&handler, "id", "done", 4, 5, "m".to_string());
    let seen = seen.into_inner();
    assert_eq!(seen.len(), 1);
    assert_eq!((seen[0].uuid.as_str(), seen[0].stage.as_str(), seen[0].processed, seen[0].total, seen[0].message.as_str()), ("id", "done", 4, 5, "m"));
}

#[test]
fn progress_counts_recorded_answers() {
    let client = Client::new();
    let line = "b".repeat(20000);
    let mut job = SubtitleSummaryJob::new(&client, "t4", format!("{}\n{}", line, line));
    assert_eq!(job.completed_chunks(), 0);
    let p = job.chunks_start_progress();
    assert_eq!(p.processed, 0);
    let p = job.record_chunk(0, answer("x", ""));
    assert_eq!((p.processed, job.completed_chunks()), (1, 1));
    let p = job.record_chunk(1, answer("y", ""));
    assert_eq!((p.processed, job.completed_chunks()), (2, 2));
    assert_eq!(job.merging_progress().processed, 2);
    assert_eq!(job.done_progress().processed, 3);
}

#[test]
fn only_the_done_report_finishes_a_task() {
    let client = Client::new();
    let line = "c".repeat(20000);
    let mut job = SubtitleSummaryJob::new(&client, "t5", format!("{}\n{}", line, line));
    let mut seen = Vec::new();
    assert!(!job.is_finished());
    let p = job.chunks_start_progress();
    seen.push((p.processed, p.total));
    assert!(!job.is_finished());
    for i in 0..2 {
        let p = job.record_chunk(i, answer("n", ""));
        seen.push((p.processed, p.total));
        assert!(!job.is_finished());
    }
    let p = job.merging_progress();
    seen.push((p.processed, p.total));
    assert!(!job.is_finished());
    let p = job.done_progress();
    seen.push((p.processed, p.total));
    assert!(job.is_finished());
    assert_eq!(seen, vec![(0, 3), (1, 3), (2, 3), (2, 3), (3, 3)]);

    let mut single = SubtitleSummaryJob::new(&client, "t6", "[00:00:00,000] hi.".to_string());
    single.single_start_progress();
    assert!(!single.is_finished());
    single.single_done_progress();
    assert!(single.is_finished());
}
