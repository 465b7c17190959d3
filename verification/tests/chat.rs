use course_ai::error::AppError;
use course_ai::json::JsonValue;
use course_ai::llm::chat::{
    chat_response_from_completion, check_chat_status, check_models_status, display_name,
    extract_reasoning_content, extract_reasoning_content_from_value, extract_text, models_from_list,
    normalize_api_root, normalize_base_url, normalize_config, normalize_model, normalize_models_url,
    prepare_chat_completion, prepare_model_list, strip_think_blocks, ChatFallback,
};
use course_ai::llm::model::{AssistantMessage, ChatCompletionResponse, Choice, ModelData, ModelListResponse};
use course_ai::model::LLMConfig;

fn s(x: &str) -> JsonValue {
    JsonValue::String(x.to_string())
}

fn obj(members: &[(&str, JsonValue)]) -> JsonValue {
    JsonValue::Object(members.iter().map(|(k, v)| (k.to_string(), clone_json(v))).collect())
}

fn clone_json(v: &JsonValue) -> JsonValue {
    match v {
        JsonValue::Null => JsonValue::Null,
        JsonValue::Bool(b) => JsonValue::Bool(*b),
        JsonValue::Number(n) => JsonValue::Number(n.clone()),
        JsonValue::String(t) => JsonValue::String(t.clone()),
        JsonValue::Array(a) => JsonValue::Array(a.iter().map(clone_json).collect()),
        JsonValue::Object(m) => JsonValue::Object(m.iter().map(|(k, v)| (k.clone(), clone_json(v))).collect()),
    }
}

fn message(content: Option<JsonValue>, reasoning_content: Option<&str>, reasoning: Option<JsonValue>) -> AssistantMessage {
    AssistantMessage {
        role: "assistant".to_string(),
        content,
        reasoning_content: reasoning_content.map(|r| r.to_string()),
        reasoning,
    }
}

fn completion(msg: AssistantMessage) -> ChatCompletionResponse {
    ChatCompletionResponse {
        choices: vec![Choice { index: 0, message: msg, logprobs: None, finish_reason: Some("stop".to_string()) }],
    }
}

fn config(name: &str, base_url: &str, model: &str, api_key: &str, enabled: bool) -> LLMConfig {
    LLMConfig {
        name: name.to_string(),
        base_url: base_url.to_string(),
        model: model.to_string(),
        api_key: api_key.to_string(),
        enabled,
    }
}

fn llm_message(e: AppError) -> String {
    match e {
        AppError::LLMError(m) => m,
        other => panic!("unexpected error {:?}", other),
    }
}

#[test]
fn strip_think_removes_reasoning_blocks() {
    assert_eq!(strip_think_blocks("Hi <think>secret</think>there  \nx  "), "Hi there\nx");
    assert_eq!(strip_think_blocks("a<think>b"), "a");
    assert_eq!(strip_think_blocks("<think>1</think>A<think>2</think>B"), "AB");
    assert_eq!(strip_think_blocks("line \r\nnext\t\n"), "line\nnext");
    assert_eq!(strip_think_blocks(""), "");
}

#[test]
fn api_root_normalisation() {
    assert_eq!(normalize_api_root("  https://x.com/v1/chat/completions/ "), "https://x.com/v1");
    assert_eq!(normalize_api_root("https://x.com/models"), "https://x.com");
    assert_eq!(normalize_api_root("https://x.com/v1///"), "https://x.com/v1");
    assert_eq!(normalize_api_root("   "), "https://api.deepseek.com");
    assert_eq!(normalize_base_url("https://x.com/models"), "https://x.com/chat/completions");
    assert_eq!(normalize_models_url("https://x.com/chat/completions"), "https://x.com/models");
}

#[test]
fn model_and_name_normalisation() {
    assert_eq!(normalize_model("  "), "deepseek-chat");
    assert_eq!(normalize_model(" gpt-4o "), "gpt-4o");
    assert_eq!(display_name(&config("  ", "", "", "", true), 0), "LLM 1");
    assert_eq!(display_name(&config("", "", "", "", true), 11), "LLM 12");
    assert_eq!(display_name(&config(" Main ", "", "", "", true), 3), "Main");
    let n = normalize_config(&config("n", " ", "\t", "k", false));
    assert_eq!((n.base_url.as_str(), n.model.as_str(), n.api_key.as_str(), n.enabled), ("https://api.deepseek.com", "deepseek-chat", "k", false));
    let n = normalize_config(&config("n", " u ", " m ", "k", true));
    assert_eq!((n.base_url.as_str(), n.model.as_str()), (" u ", " m "));
    let d = LLMConfig::default();
    assert!(d.enabled && d.api_key.is_empty());
}

#[test]
fn extract_text_from_content_shapes() {
    assert_eq!(extract_text(&None), "");
    assert_eq!(extract_text(&Some(s("plain"))), "plain");
    let parts = JsonValue::Array(vec![
        obj(&[("type", s("text")), ("text", s("one"))]),
        obj(&[("type", s("image_url")), ("text", s("skip"))]),
        s("two"),
        obj(&[("type", s("output_text")), ("content", s("three"))]),
        obj(&[("text", s("four"))]),
        JsonValue::Number("3".to_string()),
    ]);
    assert_eq!(extract_text(&Some(parts)), "one\ntwo\nthree\nfour");
    assert_eq!(extract_text(&Some(JsonValue::Bool(true))), "");
}

#[test]
fn extract_reasoning_from_values() {
    assert_eq!(extract_reasoning_content_from_value(&s("r")), "r");
    let parts = JsonValue::Array(vec![
        obj(&[("type", s("reasoning")), ("reasoning_content", s("a"))]),
        obj(&[("type", s("text")), ("text", s("no"))]),
        obj(&[("type", s("reasoning_summary")), ("text", s("b"))]),
    ]);
    assert_eq!(extract_reasoning_content_from_value(&parts), "a\nb");
    let nested = obj(&[("content", obj(&[("content", s("deep"))]))]);
    assert_eq!(extract_reasoning_content_from_value(&nested), "deep");
    let blank_nested = obj(&[("content", s("  "))]);
    assert_eq!(extract_reasoning_content_from_value(&blank_nested), "");
    assert_eq!(extract_reasoning_content_from_value(&JsonValue::Null), "");
}

#[test]
fn extract_reasoning_of_messages() {
    assert_eq!(extract_reasoning_content(&message(None, Some("own"), Some(s("other")))), "own");
    assert_eq!(extract_reasoning_content(&message(None, Some("  "), Some(s("other")))), "other");
    assert_eq!(extract_reasoning_content(&message(None, None, Some(s(" ")))), "");
    assert_eq!(extract_reasoning_content(&message(None, None, None)), "");
}

#[test]
fn completion_answers_are_cleaned() {
    let r = chat_response_from_completion(&completion(message(
        Some(s("<think>x</think>  Answer  ")),
        Some("  why  "),
        None,
    )))
    .unwrap();
    assert_eq!(r.content, "Answer");
    assert_eq!(r.reasoning_content, "why");
    let e = chat_response_from_completion(&ChatCompletionResponse { choices: vec![] }).unwrap_err();
    assert_eq!(llm_message(e), "LLM 返回了空内容，请检查模型配置后重试。");
    let e = chat_response_from_completion(&completion(message(Some(s("<think>only</think> ")), None, None))).unwrap_err();
    assert_eq!(llm_message(e), "LLM 返回了空内容，请检查模型配置后重试。");
}

#[test]
fn chat_requests_are_prepared() {
    let e = prepare_chat_completion(&config("", "", "", "  ", true), "p".to_string()).err().unwrap();
    assert_eq!(llm_message(e), "请先在设置页填写 LLM API Key。");
    let (plan, request) = prepare_chat_completion(&config("", "https://x.com/v1/", " m ", " key ", true), "hello".to_string()).unwrap();
    assert_eq!(plan.endpoint, "https://x.com/v1/chat/completions");
    assert_eq!(plan.headers, vec![
        ("Content-Type".to_string(), "application/json".to_string()),
        ("Authorization".to_string(), "Bearer key".to_string()),
    ]);
    assert_eq!(request.model, "m");
    assert!(!request.stream);
    assert_eq!(request.messages.len(), 2);
    assert_eq!((request.messages[0].role.as_str(), request.messages[0].content.as_str()), ("system", "You are a helpful assistant."));
    assert_eq!((request.messages[1].role.as_str(), request.messages[1].content.as_str()), ("user", "hello"));
}

#[test]
fn model_list_requests_are_prepared() {
    let e = prepare_model_list(&config("", "", "", "", true)).err().unwrap();
    assert_eq!(llm_message(e), "请先填写对应节点的 LLM API Key。");
    let plan = prepare_model_list(&config("", "", "", "k", true)).unwrap();
    assert_eq!(plan.endpoint, "https://api.deepseek.com/models");
    assert_eq!(plan.headers, vec![
        ("Authorization".to_string(), "Bearer k".to_string()),
        ("Accept".to_string(), "application/json".to_string()),
    ]);
}

#[test]
fn status_failures_are_reported() {
    assert!(check_chat_status(200, b"").is_ok());
    assert!(check_models_status(204, b"x").is_ok());
    assert_eq!(llm_message(check_chat_status(404, b" ").unwrap_err()), "请求失败，状态码：404 Not Found");
    assert_eq!(llm_message(check_chat_status(500, b"boom").unwrap_err()), "请求失败，状态码：500 Internal Server Error，响应：boom");
    assert_eq!(llm_message(check_models_status(599, b"\xffz").unwrap_err()), "拉取模型列表失败，状态码：599 <unknown status code>，响应：\u{fffd}z");
}

#[test]
fn model_lists_are_sorted_and_deduplicated() {
    let data = |ids: &[&str]| ModelListResponse { data: ids.iter().map(|i| ModelData { id: i.to_string() }).collect() };
    let models = models_from_list(&data(&["b", "a", " ", "b", "ab", "B"])).unwrap();
    assert_eq!(models, vec!["B", "a", "ab", "b"]);
    let e = models_from_list(&data(&[" ", ""])).unwrap_err();
    assert_eq!(llm_message(e), "接口未返回可用模型，请确认该 API 兼容 OpenAI 的 /models。");
    let mut expected = vec!["é".to_string(), "z".to_string(), "中".to_string(), "a".to_string()];
    expected.sort();
    assert_eq!(models_from_list(&data(&["中", "z", "é", "a"])).unwrap(), expected);
}

#[test]
fn fallback_tries_usable_configs_in_order() {
    let configs = vec![
        config("off", "", "", "k0", false),
        config("nokey", "", "", "  ", true),
        config("", " ", "", "k2", true),
        config("second", "https://y.com", "m", "k3", true),
    ];
    let mut fallback = ChatFallback::new(&configs).unwrap();
    let (c, name) = fallback.next_attempt().unwrap();
    assert_eq!((name.as_str(), c.api_key.as_str(), c.base_url.as_str()), ("LLM 1", "k2", "https://api.deepseek.com"));
    fallback.record_failure(&AppError::LLMError("boom".to_string()));
    let (c, name) = fallback.next_attempt().unwrap();
    assert_eq!((name.as_str(), c.api_key.as_str()), ("second", "k3"));
    fallback.record_failure(&AppError::RequestError("timeout".to_string()));
    assert!(fallback.next_attempt().is_none());
    assert_eq!(llm_message(fallback.exhausted_error()), "所有 LLM 选项都调用失败：LLM 1: boom | second: timeout");
}

#[test]
fn fallback_needs_a_usable_config() {
    let e = ChatFallback::new(&[config("", "", "", "", true)]).err().unwrap();
    assert_eq!(llm_message(e), "请先配置至少一个启用的 LLM 选项。");
}

#[test]
fn fallback_stops_at_the_first_answer() {
    let configs = vec![config("a", "", "", "k1", true), config("b", "", "", "k2", true)];
    let mut fallback = ChatFallback::new(&configs).unwrap();
    let (_, name) = fallback.next_attempt().unwrap();
    assert_eq!(name, "a");
    fallback.record_success();
    assert!(fallback.next_attempt().is_none());
}
