use vstd::prelude::*;

verus! {

/// A fatal failure of a run.  A corrupt cache file is not here: it is
/// recovered silently by starting from an empty cache.
#[derive(Debug, PartialEq, Eq, Structural)]
pub enum TranslateError {
    /// The required API credential is missing from the environment.
    MissingCredential,
    /// A version string of the compatibility negotiation with the host
    /// could not be parsed.
    BadVersion,
    /// The remote endpoint could not be reached within the timeout.
    Transport,
    /// The remote response was not the expected envelope.
    Protocol,
}

/// The translator's per-run configuration: where the cache lives, the
/// target language, an optional supplementary instruction, and an
/// optional outbound proxy.
pub struct DeepSeekTranslator {
    pub cache_file: String,
    pub target_lang: String,
    pub prompt: String,
    pub proxy: String,
}

/// The configured value an optional setting leaves behind: a present,
/// non-empty setting replaces the current value; anything else keeps it.
pub open spec fn chosen(setting: Option<&str>, current: Seq<char>) -> Seq<char> {
    match setting {
        Some(s) => if s@.len() > 0 {
            s@
        } else {
            current
        },
        None => current,
    }
}

impl DeepSeekTranslator {
    /// A translator with the default cache location and no language,
    /// supplementary instruction or proxy configured yet.
    pub fn new() -> (r: DeepSeekTranslator)
        ensures
            r.cache_file@ == "deepseek_cache.json"@,
            r.target_lang@.len() == 0,
            r.prompt@.len() == 0,
            r.proxy@.len() == 0,
    {
        DeepSeekTranslator {
            cache_file: String::from_str("deepseek_cache.json"),
            target_lang: String::new(),
            prompt: String::new(),
            proxy: String::new(),
        }
    }

    /// Sets the target language.
    pub fn set_language(&mut self, lang: &str)
        ensures
            final(self).target_lang@ == lang@,
            final(self).cache_file == old(self).cache_file,
            final(self).prompt == old(self).prompt,
            final(self).proxy == old(self).proxy,
    {
        self.target_lang = String::from_str(lang);
    }

    /// Sets the supplementary instruction sent with every request.
    pub fn set_prompt(&mut self, prompt: &str)
        ensures
            final(self).prompt@ == prompt@,
            final(self).cache_file == old(self).cache_file,
            final(self).target_lang == old(self).target_lang,
            final(self).proxy == old(self).proxy,
    {
        self.prompt = String::from_str(prompt);
    }

    /// Sets the outbound proxy address.
    pub fn set_proxy(&mut self, proxy: &str)
        ensures
            final(self).proxy@ == proxy@,
            final(self).cache_file == old(self).cache_file,
            final(self).target_lang == old(self).target_lang,
            final(self).prompt == old(self).prompt,
    {
        self.proxy = String::from_str(proxy);
    }

    /// This preprocessor's name, as the host addresses it.
    pub fn name(&self) -> (r: &'static str)
        ensures
            r@ == "translator"@,
    {
        "translator"
    }

    /// Whether a renderer is supported: translation only rewrites chapter
    /// text, so every renderer is.
    pub fn supports_renderer(&self, _renderer: &str) -> (r: bool)
        ensures
            r,
    {
        true
    }

    /// Applies the host-supplied options: each of language, supplementary
    /// instruction and proxy is taken only where it is present and
    /// non-empty, and left at its current value otherwise.
    pub fn apply_config(&mut self, language: Option<&str>, prompt: Option<&str>, proxy: Option<
        &str,
    >)
        ensures
            final(self).target_lang@ == chosen(language, old(self).target_lang@),
            final(self).prompt@ == chosen(prompt, old(self).prompt@),
            final(self).proxy@ == chosen(proxy, old(self).proxy@),
            final(self).cache_file == old(self).cache_file,
    {
        match language {
            Some(l) => if !l.is_empty() {
                self.set_language(l);
            },
            None => {},
        }
        match prompt {
            Some(p) => if !p.is_empty() {
                self.set_prompt(p);
            },
            None => {},
        }
        match proxy {
            Some(p) => if !p.is_empty() {
                self.set_proxy(p);
            },
            None => {},
        }
    }
}

/// One chat message of a translation request.
pub struct Message {
    pub role: String,
    pub content: String,
}

/// The fixed system instruction: the assistant is a technical-document
/// translator that preserves code and commands, follows community usage
/// for terms, and keeps the original term when unsure.
pub open spec fn system_instruction() -> Seq<char> {
    "你是专业技术文档翻译助手，保留代码、命令，术语翻译尽量遵循社区的常见用法。如果有不理解的术语，保持原文。"@
}

/// The user instruction: the target language by name, then the text.
pub open spec fn user_request(lang: Seq<char>, text: Seq<char>) -> Seq<char> {
    "Translate the following text into "@ + lang + ":\n\n"@ + text
}

/// Builds the message list of one translation request: the fixed system
/// instruction, the user instruction naming the target language and
/// carrying the text, and — only when one is configured — the
/// supplementary instruction as a third message.
pub fn build_messages(target_lang: &str, text: &str, prompt: &str) -> (r: Vec<Message>)
    ensures
        r@.len() == (if prompt@.len() == 0 {
            2int
        } else {
            3int
        }),
        r@[0].role@ == "system"@,
        r@[0].content@ == system_instruction(),
        r@[1].role@ == "user"@,
        r@[1].content@ == user_request(target_lang@, text@),
        prompt@.len() > 0 ==> r@[2].role@ == "user"@ && r@[2].content@ == prompt@,
{
    let mut r: Vec<Message> = Vec::new();
    r.push(
        Message {
            role: String::from_str("system"),
            content: String::from_str(
                "你是专业技术文档翻译助手，保留代码、命令，术语翻译尽量遵循社区的常见用法。如果有不理解的术语，保持原文。",
            ),
        },
    );
    let mut content = String::from_str("Translate the following text into ");
    content.append(target_lang);
    content.append(":\n\n");
    content.append(text);
    r.push(Message { role: String::from_str("user"), content });
    if !prompt.is_empty() {
        r.push(Message { role: String::from_str("user"), content: String::from_str(prompt) });
    }
    r
}

/// What a response body carries: nothing when the body is not JSON;
/// otherwise the completion text at the envelope's fixed path, or none
/// when the field is absent or not a string.  The outcome is a function
/// of the body text alone.
pub uninterp spec fn completion_of(body: Seq<char>) -> Option<Option<Seq<char>>>;

/// The outcome of an extraction, seen at the specification level.
pub open spec fn extraction_view(r: Option<Option<String>>) -> Option<Option<Seq<char>>> {
    match r {
        Some(Some(s)) => Some(Some(s@)),
        Some(None) => Some(None),
        None => None,
    }
}

/// Relies on serde_json::from_str and serde_json::Value::pointer: whether
/// the body parses as JSON, and what string stands at
/// choices[0].message.content, depend on the body text alone.
#[verifier::external_body]
fn extract_completion(body: &str) -> (r: Option<Option<String>>)
    ensures
        extraction_view(r) == completion_of(body@),
{
    let v: serde_json::Value = match serde_json::from_str(body) {
        Ok(v) => v,
        Err(_) => return None,
    };
    match v.pointer("/choices/0/message/content") {
        Some(serde_json::Value::String(s)) => Some(Some(s.clone())),
        _ => Some(None),
    }
}

/// The translation a response body carries.  A body that is not JSON is a
/// protocol error; a well-formed body without the completion field yields
/// the empty string — nothing translated, which the caller must not
/// cache — and the completion text is returned as it stands otherwise.
pub fn response_text(body: &str) -> (r: Result<String, TranslateError>)
    ensures
        match r {
            Ok(t) => completion_of(body@) matches Some(c) && t@ == (match c {
                Some(s) => s,
                None => Seq::<char>::empty(),
            }),
            Err(e) => completion_of(body@) is None && e == TranslateError::Protocol,
        },
{
    match extract_completion(body) {
        Some(Some(t)) => Ok(t),
        Some(None) => Ok(String::new()),
        None => Err(TranslateError::Protocol),
    }
}

/// Whether version `ver` satisfies requirement `req`: a function of the
/// two strings; nothing when either fails to parse.
pub uninterp spec fn semver_match(req: Seq<char>, ver: Seq<char>) -> Option<bool>;

/// Relies on semver::VersionReq::parse, semver::Version::parse and
/// semver::VersionReq::matches: whether each string parses, and whether
/// the version satisfies the requirement, depend on the two strings
/// alone.
#[verifier::external_body]
fn semver_matches_raw(req: &str, ver: &str) -> (r: Option<bool>)
    ensures
        r == semver_match(req@, ver@),
{
    let rq = match semver::VersionReq::parse(req) {
        Ok(x) => x,
        Err(_) => return None,
    };
    let vr = match semver::Version::parse(ver) {
        Ok(x) => x,
        Err(_) => return None,
    };
    Some(rq.matches(&vr))
}

/// The compatibility check of the host handshake: whether the host's
/// version satisfies the requirement this tool was built against, or a
/// configuration error when either version string is malformed.
pub fn check_compat(built_against: &str, host_version: &str) -> (r: Result<bool, TranslateError>)
    ensures
        match r {
            Ok(b) => semver_match(built_against@, host_version@) == Some(b),
            Err(e) => semver_match(built_against@, host_version@) is None && e
                == TranslateError::BadVersion,
        },
{
    match semver_matches_raw(built_against, host_version) {
        Some(b) => Ok(b),
        None => Err(TranslateError::BadVersion),
    }
}

} // verus!
