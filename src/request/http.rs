//! Chat messages and request settings of the HTTP generator client.
use vstd::prelude::*;

verus! {

/// Tokens used by one or more requests.
pub struct TokenUsage {
    pub prompt_tokens: u32,
    pub completion_tokens: u32,
    pub total_tokens: u32,
}

/// The usage block of a chat-completion answer.
pub struct OpenAIUsage {
    pub prompt_tokens: u32,
    pub completion_tokens: u32,
    pub total_tokens: u32,
    pub cache_creation_input_tokens: u32,
    pub cache_read_input_tokens: u32,
}

impl TokenUsage {
    /// A usage record.
    pub fn new(prompt_tokens: u32, completion_tokens: u32, total_tokens: u32) -> (r: TokenUsage)
        ensures
            r.prompt_tokens == prompt_tokens,
            r.completion_tokens == completion_tokens,
            r.total_tokens == total_tokens,
    {
        TokenUsage { prompt_tokens, completion_tokens, total_tokens }
    }

    /// The counts of an answer's usage block.
    pub fn from_openai_usage(usage: &OpenAIUsage) -> (r: TokenUsage)
        ensures
            r.prompt_tokens == usage.prompt_tokens,
            r.completion_tokens == usage.completion_tokens,
            r.total_tokens == usage.total_tokens,
    {
        TokenUsage {
            prompt_tokens: usage.prompt_tokens,
            completion_tokens: usage.completion_tokens,
            total_tokens: usage.total_tokens,
        }
    }

    /// Adds another record to this one.
    pub fn add(&mut self, other: &TokenUsage)
        requires
            old(self).prompt_tokens + other.prompt_tokens <= u32::MAX,
            old(self).completion_tokens + other.completion_tokens <= u32::MAX,
            old(self).total_tokens + other.total_tokens <= u32::MAX,
        ensures
            final(self).prompt_tokens == old(self).prompt_tokens + other.prompt_tokens,
            final(self).completion_tokens == old(self).completion_tokens + other.completion_tokens,
            final(self).total_tokens == old(self).total_tokens + other.total_tokens,
    {
        self.prompt_tokens = self.prompt_tokens + other.prompt_tokens;
        self.completion_tokens = self.completion_tokens + other.completion_tokens;
        self.total_tokens = self.total_tokens + other.total_tokens;
    }
}

/// Settings of the HTTP client.
pub struct HttpClientConfig {
    pub base_url: String,
    /// Whole-request timeout, in seconds.
    pub timeout_secs: u64,
    /// Connection timeout, in seconds.
    pub connect_timeout_secs: u64,
    /// Headers sent with every request, by name.
    pub default_headers: Vec<(String, String)>,
    pub retry_attempts: u32,
    /// Pause between attempts, in seconds.
    pub retry_delay_secs: u64,
}

impl Default for HttpClientConfig {
    /// The settings of `default_config`.
    fn default() -> (r: HttpClientConfig)
        ensures
            r.base_url@ == "https://api.openai.com"@,
            r.timeout_secs == 180,
            r.connect_timeout_secs == 10,
            r.retry_attempts == 3,
            r.retry_delay_secs == 2,
            r.default_headers@.len() == 2,
    {
        HttpClientConfig::default_config()
    }
}

impl HttpClientConfig {
    /// The settings of the public endpoint: JSON requests, 180 s per
    /// request, 10 s to connect, three attempts two seconds apart.
    pub fn default_config() -> (r: HttpClientConfig)
        ensures
            r.base_url@ == "https://api.openai.com"@,
            r.timeout_secs == 180,
            r.connect_timeout_secs == 10,
            r.retry_attempts == 3,
            r.retry_delay_secs == 2,
            r.default_headers@.len() == 2,
            r.default_headers@[0].0@ == "Content-Type"@ && r.default_headers@[0].1@ == "application/json"@,
            r.default_headers@[1].0@ == "User-Agent"@ && r.default_headers@[1].1@ == "lisa-HTTP-Client/1.0"@,
    {
        let mut headers: Vec<(String, String)> = Vec::new();
        headers.push(("Content-Type".to_string(), "application/json".to_string()));
        headers.push(("User-Agent".to_string(), "lisa-HTTP-Client/1.0".to_string()));
        HttpClientConfig {
            base_url: "https://api.openai.com".to_string(),
            timeout_secs: 180,
            connect_timeout_secs: 10,
            default_headers: headers,
            retry_attempts: 3,
            retry_delay_secs: 2,
        }
    }

    /// Points the client at `base_url`.
    pub fn set_base_url(&mut self, base_url: &str)
        ensures
            final(self).base_url@ == base_url@,
            final(self).timeout_secs == old(self).timeout_secs,
            final(self).connect_timeout_secs == old(self).connect_timeout_secs,
            final(self).default_headers == old(self).default_headers,
            final(self).retry_attempts == old(self).retry_attempts,
            final(self).retry_delay_secs == old(self).retry_delay_secs,
    {
        self.base_url = base_url.to_string();
    }

    /// Sets the whole-request timeout.
    pub fn set_timeout(&mut self, timeout_secs: u64)
        ensures
            final(self).timeout_secs == timeout_secs,
            final(self).base_url == old(self).base_url,
            final(self).connect_timeout_secs == old(self).connect_timeout_secs,
            final(self).default_headers == old(self).default_headers,
            final(self).retry_attempts == old(self).retry_attempts,
            final(self).retry_delay_secs == old(self).retry_delay_secs,
    {
        self.timeout_secs = timeout_secs;
    }
}

/// One chat message.
pub struct OpenAIMessage {
    pub role: String,
    pub content: String,
    pub name: Option<String>,
}

/// Builds chat messages.
pub struct OpenAIMessageBuilder;

impl OpenAIMessageBuilder {
    /// A system message.
    pub fn system(content: &str) -> (r: OpenAIMessage)
        ensures
            r.role@ == "system"@,
            r.content@ == content@,
            r.name is None,
    {
        OpenAIMessage { role: "system".to_string(), content: content.to_string(), name: None }
    }

    /// A user message.
    pub fn user(content: &str) -> (r: OpenAIMessage)
        ensures
            r.role@ == "user"@,
            r.content@ == content@,
            r.name is None,
    {
        OpenAIMessage { role: "user".to_string(), content: content.to_string(), name: None }
    }

    /// An assistant message.
    pub fn assistant(content: &str) -> (r: OpenAIMessage)
        ensures
            r.role@ == "assistant"@,
            r.content@ == content@,
            r.name is None,
    {
        OpenAIMessage { role: "assistant".to_string(), content: content.to_string(), name: None }
    }

    /// The message with its author's name set.
    pub fn with_name(message: OpenAIMessage, name: &str) -> (r: OpenAIMessage)
        ensures
            r.role == message.role,
            r.content == message.content,
            r.name matches Some(n) && n@ == name@,
    {
        let mut message = message;
        message.name = Some(name.to_string());
        message
    }
}

/// Why a chat request is not well formed.
pub enum RequestError {
    EmptyModel,
    EmptyMessages,
    InvalidRole(String),
    EmptyContent,
}

/// A role a chat message may have.
pub open spec fn valid_role(r: Seq<char>) -> bool {
    r == "system"@ || r == "user"@ || r == "assistant"@
}

/// Checks a chat request: a model, at least one message, and each message
/// with a known role and some content. The first fault found is reported.
pub fn validate_openai_request(model: &str, messages: &Vec<OpenAIMessage>) -> (r: Result<(), RequestError>)
    ensures
        r is Ok <==> (model@.len() > 0 && messages@.len() > 0 && forall|i: int|
            0 <= i < messages@.len() ==> valid_role(#[trigger] messages@[i].role@) && messages@[i].content@.len() > 0),
        r matches Err(RequestError::EmptyModel) <==> model@.len() == 0,
{
    if model.unicode_len() == 0 {
        return Err(RequestError::EmptyModel);
    }
    if messages.len() == 0 {
        return Err(RequestError::EmptyMessages);
    }
    let system = "system".to_string();
    let user = "user".to_string();
    let assistant = "assistant".to_string();
    let mut i: usize = 0;
    while i < messages.len()
        invariant
            system@ == "system"@ && user@ == "user"@ && assistant@ == "assistant"@,
            model@.len() > 0,
            i <= messages@.len(),
            forall|j: int| 0 <= j < i ==> valid_role(#[trigger] messages@[j].role@) && messages@[j].content@.len() > 0,
        decreases messages@.len() - i,
    {
        let m = &messages[i];
        if !(m.role == system || m.role == user || m.role == assistant) {
            return Err(RequestError::InvalidRole(m.role.clone()));
        }
        if m.content.as_str().unicode_len() == 0 {
            return Err(RequestError::EmptyContent);
        }
        assert(valid_role(messages@[i as int].role@));
        assert(messages@[i as int].content@.len() > 0);
        assert forall|j: int| 0 <= j < i + 1 implies valid_role(#[trigger] messages@[j].role@) && messages@[j].content@.len() > 0 by {
            if j < i {
                assert(valid_role(messages@[j].role@));
            }
        }
        i += 1;
    }
    Ok(())
}

} // verus!
