//! The OpenAI-compatible wire model.
use vstd::prelude::*;
use crate::json::JsonValue;

verus! {

/// A chat completion request body.
#[derive(Debug)]
pub struct ChatCompletionRequest {
    pub model: String,
    pub messages: Vec<Message>,
    pub stream: bool,
}

/// One message of a request.
#[derive(Debug)]
pub struct Message {
    pub role: String,
    pub content: String,
}

/// A chat completion response body.
#[derive(Debug)]
pub struct ChatCompletionResponse {
    pub choices: Vec<Choice>,
}

/// One choice of a response.
#[derive(Debug)]
pub struct Choice {
    pub index: u32,
    pub message: AssistantMessage,
    pub logprobs: Option<JsonValue>,
    pub finish_reason: Option<String>,
}

/// The assistant's message in a choice.
#[derive(Debug)]
pub struct AssistantMessage {
    pub role: String,
    pub content: Option<JsonValue>,
    pub reasoning_content: Option<String>,
    pub reasoning: Option<JsonValue>,
}

/// A model list response body.
#[derive(Debug)]
pub struct ModelListResponse {
    pub data: Vec<ModelData>,
}

/// One entry of a model list.
#[derive(Debug)]
pub struct ModelData {
    pub id: String,
}

} // verus!
