//! Plain data shared by the client: endpoint configuration, subtitle items,
//! chat answers, progress reports and summary results.
use vstd::prelude::*;

verus! {

/// The API root used when a configuration leaves it blank.
pub const DEFAULT_LLM_BASE_URL: &'static str = "https://api.deepseek.com";

/// The model used when a configuration leaves it blank.
pub const DEFAULT_LLM_MODEL: &'static str = "deepseek-chat";

/// One configured LLM endpoint.
#[derive(Debug)]
pub struct LLMConfig {
    pub name: String,
    pub base_url: String,
    pub model: String,
    pub api_key: String,
    pub enabled: bool,
}

impl LLMConfig {
    /// An enabled configuration for the default endpoint and model, without a key.
    pub fn default_config() -> (res: LLMConfig)
        ensures
            res.name@.len() == 0,
            res.base_url@ == DEFAULT_LLM_BASE_URL@,
            res.model@ == DEFAULT_LLM_MODEL@,
            res.api_key@.len() == 0,
            res.enabled,
    {
        LLMConfig {
            name: String::new(),
            base_url: DEFAULT_LLM_BASE_URL.to_string(),
            model: DEFAULT_LLM_MODEL.to_string(),
            api_key: String::new(),
            enabled: true,
        }
    }

    /// A field-by-field copy.
    pub fn duplicate(&self) -> (res: LLMConfig)
        ensures
            res == *self,
    {
        LLMConfig {
            name: self.name.clone(),
            base_url: self.base_url.clone(),
            model: self.model.clone(),
            api_key: self.api_key.clone(),
            enabled: self.enabled,
        }
    }
}

impl Default for LLMConfig {
    fn default() -> (res: LLMConfig)
        ensures
            res.name@.len() == 0,
            res.base_url@ == DEFAULT_LLM_BASE_URL@,
            res.model@ == DEFAULT_LLM_MODEL@,
            res.api_key@.len() == 0,
            res.enabled,
    {
        LLMConfig::default_config()
    }
}

impl Clone for LLMConfig {
    fn clone(&self) -> (res: LLMConfig)
        ensures
            res == *self,
    {
        self.duplicate()
    }
}

/// One timed subtitle item of a lecture video.
#[derive(Debug)]
pub struct CanvasVideoSubTitle {
    /// Start of the item, in milliseconds.
    pub bg: u64,
    /// The recognised text.
    pub res: String,
}

/// A chat answer: its content and, separately, the model's reasoning.
#[derive(Debug)]
pub struct LLMChatResponse {
    pub content: String,
    pub reasoning_content: String,
}

/// One progress report of a subtitle summary task.
#[derive(Debug)]
pub struct SubtitleSummaryProgressPayload {
    pub uuid: String,
    pub stage: String,
    pub processed: u64,
    pub total: u64,
    pub message: String,
}

/// The outcome of a subtitle summary task.
#[derive(Debug)]
pub struct SubtitleSummaryResult {
    pub markdown: String,
    pub reasoning_content: String,
    pub subtitle_content: String,
}

} // verus!
