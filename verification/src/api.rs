//! Request-independent parts of the HTTP API: error classification, the
//! chat prompt built from messages, and timestamps.

use vstd::prelude::*;
use vstd::string::StringExecFns;
use crate::auth::{char_is_whitespace, is_white_space};
use crate::clock::{secs_since_epoch, system_now};
use crate::models::{find_model, ModelManager};
use crate::types::{ApiError, ChatChoice, ChatCompletionResponse, ChatMessage, ModelConfig, StringOrArray, Usage};

verus! {

/// Errors reported by API handlers.
#[derive(Debug, Clone)]
pub enum AppError {
    ModelNotFound(String),
    ModelLoadError(String),
    ModelUnloadError(String),
    InferenceError(String),
    DownloadError(String),
    InvalidRequest(String),
}

/// HTTP status of an error: 404 for a missing model, 400 for an invalid
/// request, 500 otherwise.
pub open spec fn error_status(e: AppError) -> u16 {
    match e {
        AppError::ModelNotFound(_) => 404,
        AppError::InvalidRequest(_) => 400,
        _ => 500,
    }
}

/// Error type reported for an error.
pub open spec fn error_type_name(e: AppError) -> Seq<char> {
    match e {
        AppError::ModelNotFound(_) => "model_not_found"@,
        AppError::ModelLoadError(_) => "load_error"@,
        AppError::ModelUnloadError(_) => "unload_error"@,
        AppError::InferenceError(_) => "inference_error"@,
        AppError::DownloadError(_) => "download_error"@,
        AppError::InvalidRequest(_) => "invalid_request"@,
    }
}

/// Message carried by an error.
pub open spec fn error_message(e: AppError) -> Seq<char> {
    match e {
        AppError::ModelNotFound(m) => m@,
        AppError::ModelLoadError(m) => m@,
        AppError::ModelUnloadError(m) => m@,
        AppError::InferenceError(m) => m@,
        AppError::DownloadError(m) => m@,
        AppError::InvalidRequest(m) => m@,
    }
}

impl AppError {
    pub fn status_code(&self) -> (s: u16)
        ensures
            s == error_status(*self),
    {
        match self {
            AppError::ModelNotFound(_) => 404,
            AppError::InvalidRequest(_) => 400,
            _ => 500,
        }
    }

    pub fn error_type(&self) -> (t: &'static str)
        ensures
            t@ == error_type_name(*self),
    {
        match self {
            AppError::ModelNotFound(_) => "model_not_found",
            AppError::ModelLoadError(_) => "load_error",
            AppError::ModelUnloadError(_) => "unload_error",
            AppError::InferenceError(_) => "inference_error",
            AppError::DownloadError(_) => "download_error",
            AppError::InvalidRequest(_) => "invalid_request",
        }
    }

    pub fn message(&self) -> (m: &str)
        ensures
            m@ == error_message(*self),
    {
        match self {
            AppError::ModelNotFound(m) => m.as_str(),
            AppError::ModelLoadError(m) => m.as_str(),
            AppError::ModelUnloadError(m) => m.as_str(),
            AppError::InferenceError(m) => m.as_str(),
            AppError::DownloadError(m) => m.as_str(),
            AppError::InvalidRequest(m) => m.as_str(),
        }
    }

    /// The response body for this error, with its status code.
    pub fn to_api_error(&self) -> (r: (u16, ApiError))
        ensures
            r.0 == error_status(*self),
            r.1.error.code == error_status(*self),
            r.1.error.message@ == error_message(*self),
            r.1.error.error_type@ == error_type_name(*self),
    {
        let status = self.status_code();
        (status, ApiError::new(self.message(), self.error_type(), status))
    }
}

/// Current Unix time in seconds; a clock set before the epoch reads as 0.
pub fn current_timestamp() -> (t: i64)
    ensures
        exists|secs: u64| t == #[trigger] (secs as i64),
{
    let now = system_now();
    match secs_since_epoch(&now) {
        Some(secs) => secs as i64,
        None => {
            assert(0i64 == (0u64 as i64));
            0
        },
    }
}

/// A message as a prompt line: `role: content`.
pub open spec fn message_line(m: ChatMessage) -> Seq<char> {
    m.role@ + ": "@ + m.content@
}

/// Message lines separated by blank lines.
pub open spec fn chat_prompt_text(msgs: Seq<ChatMessage>) -> Seq<char>
    decreases msgs.len(),
{
    if msgs.len() == 0 {
        Seq::empty()
    } else if msgs.len() == 1 {
        message_line(msgs[0])
    } else {
        chat_prompt_text(msgs.drop_last()) + "\n\n"@ + message_line(msgs.last())
    }
}

/// Total length of the messages' lines.
pub open spec fn lines_len(msgs: Seq<ChatMessage>) -> nat
    decreases msgs.len(),
{
    if msgs.len() == 0 {
        0
    } else {
        lines_len(msgs.drop_last()) + message_line(msgs.last()).len()
    }
}

/// Where the line of message `i` starts in the prompt: after the lines of
/// the earlier messages and a blank-line separator after each.
pub open spec fn line_start(msgs: Seq<ChatMessage>, i: int) -> int {
    lines_len(msgs.take(i)) + 2 * i
}

proof fn lemma_lines_len_mono(msgs: Seq<ChatMessage>, j: int, k: int)
    requires
        0 <= j <= k <= msgs.len(),
    ensures
        lines_len(msgs.take(j)) <= lines_len(msgs.take(k)),
    decreases k - j,
{
    if j < k {
        lemma_lines_len_mono(msgs, j, k - 1);
        assert(msgs.take(k).drop_last() =~= msgs.take(k - 1));
    }
}

proof fn lemma_prompt_len(msgs: Seq<ChatMessage>)
    ensures
        msgs.len() == 0 ==> chat_prompt_text(msgs).len() == 0,
        msgs.len() > 0 ==> chat_prompt_text(msgs).len() == lines_len(msgs) + 2 * (msgs.len() - 1),
    decreases msgs.len(),
{
    reveal_strlit("\n\n");
    if msgs.len() == 1 {
        assert(msgs.drop_last() =~= Seq::<ChatMessage>::empty());
        assert(lines_len(msgs.drop_last()) == 0);
        assert(msgs.last() == msgs[0]);
    } else if msgs.len() > 1 {
        lemma_prompt_len(msgs.drop_last());
        assert(chat_prompt_text(msgs) == chat_prompt_text(msgs.drop_last()) + "\n\n"@ + message_line(msgs.last()));
    }
}

proof fn lemma_line_at(msgs: Seq<ChatMessage>, i: int)
    requires
        0 <= i < msgs.len(),
    ensures
        line_start(msgs, i) + message_line(msgs[i]).len() <= chat_prompt_text(msgs).len(),
        chat_prompt_text(msgs).subrange(line_start(msgs, i), line_start(msgs, i) + message_line(msgs[i]).len())
            == message_line(msgs[i]),
    decreases msgs.len(),
{
    reveal_strlit("\n\n");
    let n = msgs.len() as int;
    let dl = msgs.drop_last();
    let whole = chat_prompt_text(msgs);
    lemma_prompt_len(msgs);
    if n == 1 {
        assert(msgs.take(0) =~= Seq::<ChatMessage>::empty());
        assert(dl =~= Seq::<ChatMessage>::empty());
        assert(whole.subrange(0, message_line(msgs[0]).len() as int) =~= message_line(msgs[0]));
    } else {
        let pp = chat_prompt_text(dl);
        let l = message_line(msgs.last());
        lemma_prompt_len(dl);
        assert(whole == pp + "\n\n"@ + l);
        assert(msgs.take(n - 1) =~= dl);
        if i < n - 1 {
            lemma_line_at(dl, i);
            assert(msgs.take(i) =~= dl.take(i));
            assert(dl[i] == msgs[i]);
            let a = line_start(msgs, i);
            let b = a + message_line(msgs[i]).len();
            assert(whole.subrange(a, b) =~= pp.subrange(a, b));
        } else {
            assert(whole.subrange(line_start(msgs, i), line_start(msgs, i) + l.len()) =~= l);
        }
    }
}

proof fn lemma_sep_at(msgs: Seq<ChatMessage>, i: int)
    requires
        0 < i < msgs.len(),
    ensures
        chat_prompt_text(msgs).subrange(line_start(msgs, i) - 2, line_start(msgs, i)) == "\n\n"@,
    decreases msgs.len(),
{
    reveal_strlit("\n\n");
    let n = msgs.len() as int;
    let dl = msgs.drop_last();
    let whole = chat_prompt_text(msgs);
    let pp = chat_prompt_text(dl);
    let l = message_line(msgs.last());
    lemma_prompt_len(dl);
    assert(whole == pp + "\n\n"@ + l);
    assert(msgs.take(n - 1) =~= dl);
    if i < n - 1 {
        lemma_sep_at(dl, i);
        assert(msgs.take(i) =~= dl.take(i));
        lemma_lines_len_mono(dl, i, n - 1);
        assert(dl.take(n - 1) =~= dl);
        let a = line_start(msgs, i);
        assert(whole.subrange(a - 2, a) =~= pp.subrange(a - 2, a));
    } else {
        assert(whole.subrange(line_start(msgs, i) - 2, line_start(msgs, i)) =~= "\n\n"@);
    }
}

/// The prompt holds every message's `role: content` line, in order, each
/// at its place, with a blank line between consecutive lines and nothing
/// else: its length is the lines' total plus two per separator. Stated
/// for any message index `i`.
pub proof fn chat_prompt_law(msgs: Seq<ChatMessage>, i: int)
    ensures
        msgs.len() == 0 ==> chat_prompt_text(msgs).len() == 0,
        msgs.len() > 0 ==> chat_prompt_text(msgs).len() == lines_len(msgs) + 2 * (msgs.len() - 1),
        0 <= i < msgs.len() ==> chat_prompt_text(msgs).subrange(
            line_start(msgs, i), line_start(msgs, i) + message_line(msgs[i]).len()) == message_line(msgs[i]),
        0 < i < msgs.len() ==> chat_prompt_text(msgs).subrange(line_start(msgs, i) - 2, line_start(msgs, i))
            == "\n\n"@,
{
    lemma_prompt_len(msgs);
    if 0 <= i < msgs.len() {
        lemma_line_at(msgs, i);
    }
    if 0 < i < msgs.len() {
        lemma_sep_at(msgs, i);
    }
}

/// The completion prompt for a chat: one `role: content` line per message,
/// separated by blank lines.
pub fn chat_prompt(messages: &[ChatMessage]) -> (p: String)
    ensures
        p@ == chat_prompt_text(messages@),
{
    let mut prompt = String::new();
    let mut i: usize = 0;
    while i < messages.len()
        invariant
            i <= messages@.len(),
            prompt@ == chat_prompt_text(messages@.take(i as int)),
        decreases messages@.len() - i,
    {
        proof {
            assert(messages@.take(i + 1).drop_last() =~= messages@.take(i as int));
            assert(messages@.take(i + 1).last() == messages@[i as int]);
        }
        let ghost before = prompt@;
        if i > 0 {
            prompt.append("\n\n");
        }
        prompt.append(messages[i].role.as_str());
        prompt.append(": ");
        prompt.append(messages[i].content.as_str());
        proof {
            if i == 0 {
                assert(messages@.take(1) =~= seq![messages@[0]]);
                assert(before == Seq::<char>::empty());
                assert(prompt@ =~= message_line(messages@[0]));
            } else {
                assert(prompt@ =~= chat_prompt_text(messages@.take(i + 1)));
            }
        }
        i = i + 1;
    }
    assert(messages@.take(messages@.len() as int) =~= messages@);
    prompt
}

/// Largest number of tokens generated when a completion request does not
/// say.
pub const DEFAULT_COMPLETION_TOKENS: usize = 2048;

/// The answer length of a completion request.
pub fn completion_max_tokens(requested: Option<usize>) -> (n: usize)
    ensures
        n == match requested { Some(m) => m, None => DEFAULT_COMPLETION_TOKENS },
{
    match requested {
        Some(m) => m,
        None => DEFAULT_COMPLETION_TOKENS,
    }
}

/// Whether `r` is the reply to a chat completion that produced `content`:
/// one finished choice with the assistant's message, and zero usage.
pub open spec fn is_chat_reply(r: ChatCompletionResponse, id: Seq<char>, created: i64, model: Seq<char>, content: Seq<char>) -> bool {
    &&& r.id@ == id
    &&& r.object@ == "chat.completion"@
    &&& r.created == created
    &&& r.model@ == model
    &&& r.choices@.len() == 1
    &&& r.choices@[0].index == 0
    &&& r.choices@[0].message matches Some(m) && m.role@ == "assistant"@ && m.content@ == content
    &&& r.choices@[0].delta is None
    &&& r.choices@[0].finish_reason matches Some(f) && f@ == "stop"@
    &&& r.usage matches Some(u) && u.prompt_tokens == 0 && u.completion_tokens == 0 && u.total_tokens == 0
}

/// The reply to a chat completion.
pub fn chat_completion_reply(id: String, created: i64, model: String, content: String) -> (r: ChatCompletionResponse)
    ensures
        is_chat_reply(r, id@, created, model@, content@),
{
    let mut choices: Vec<ChatChoice> = Vec::new();
    choices.push(ChatChoice {
        index: 0,
        message: Some(ChatMessage { role: "assistant".to_owned(), content }),
        delta: None,
        finish_reason: Some("stop".to_owned()),
    });
    ChatCompletionResponse {
        id,
        object: "chat.completion".to_owned(),
        created,
        model,
        choices,
        usage: Some(Usage { prompt_tokens: 0, completion_tokens: 0, total_tokens: 0 }),
    }
}

/// Whether `r` is the streamed event carrying `token`: one unfinished
/// choice whose delta is the assistant's token, and no usage.
pub open spec fn is_chat_chunk(r: ChatCompletionResponse, id: Seq<char>, created: i64, model: Seq<char>, token: Seq<char>) -> bool {
    &&& r.id@ == id
    &&& r.object@ == "chat.completion.chunk"@
    &&& r.created == created
    &&& r.model@ == model
    &&& r.choices@.len() == 1
    &&& r.choices@[0].index == 0
    &&& r.choices@[0].message is None
    &&& r.choices@[0].delta matches Some(m) && m.role@ == "assistant"@ && m.content@ == token
    &&& r.choices@[0].finish_reason is None
    &&& r.usage is None
}

/// One streamed event of a chat completion.
pub fn chat_completion_chunk(id: String, created: i64, model: String, token: String) -> (r: ChatCompletionResponse)
    ensures
        is_chat_chunk(r, id@, created, model@, token@),
{
    let mut choices: Vec<ChatChoice> = Vec::new();
    choices.push(ChatChoice {
        index: 0,
        message: None,
        delta: Some(ChatMessage { role: "assistant".to_owned(), content: token }),
        finish_reason: None,
    });
    ChatCompletionResponse {
        id,
        object: "chat.completion.chunk".to_owned(),
        created,
        model,
        choices,
        usage: None,
    }
}

/// The texts of an embedding request.
pub fn embedding_inputs(input: StringOrArray) -> (v: Vec<String>)
    ensures
        v@ == match input {
            StringOrArray::String(s) => seq![s],
            StringOrArray::Array(a) => a@,
        },
{
    match input {
        StringOrArray::String(s) => {
            let mut v: Vec<String> = Vec::new();
            v.push(s);
            v
        },
        StringOrArray::Array(a) => a,
    }
}

/// Number of words (maximal runs of non-whitespace characters) in `s`.
pub open spec fn word_count(s: Seq<char>) -> nat
    decreases s.len(),
{
    if s.len() == 0 {
        0
    } else {
        word_count(s.drop_last()) + if !is_white_space(s.last()) && (s.len() == 1 || is_white_space(s[s.len() - 2])) {
            1nat
        } else {
            0nat
        }
    }
}

/// Number of words over all texts.
pub open spec fn total_words(texts: Seq<String>) -> nat
    decreases texts.len(),
{
    if texts.len() == 0 {
        0
    } else {
        total_words(texts.drop_last()) + word_count(texts.last()@)
    }
}

proof fn lemma_word_count_prefix(s: Seq<char>, i: int)
    requires
        0 <= i <= s.len(),
    ensures
        word_count(s.take(i)) <= word_count(s),
    decreases s.len(),
{
    if i < s.len() {
        assert(s.drop_last().take(i) =~= s.take(i));
        lemma_word_count_prefix(s.drop_last(), i);
    } else {
        assert(s.take(i) =~= s);
    }
}

proof fn lemma_total_words_prefix(texts: Seq<String>, j: int)
    requires
        0 <= j <= texts.len(),
    ensures
        total_words(texts.take(j)) <= total_words(texts),
    decreases texts.len(),
{
    if j < texts.len() {
        assert(texts.drop_last().take(j) =~= texts.take(j));
        lemma_total_words_prefix(texts.drop_last(), j);
    } else {
        assert(texts.take(j) =~= texts);
    }
}

/// Counts the words of one text.
pub fn count_words(s: &str) -> (n: usize)
    ensures
        n == word_count(s@),
{
    let cs = crate::strutil::chars_of(s);
    let mut n: usize = 0;
    let mut i: usize = 0;
    let mut prev_white = true;
    while i < cs.len()
        invariant
            i <= cs@.len(),
            cs@ == s@,
            n == word_count(cs@.take(i as int)),
            n <= i,
            prev_white == (i == 0 || is_white_space(cs@[i - 1])),
        decreases cs@.len() - i,
    {
        let white = char_is_whitespace(cs[i]);
        proof {
            let t = cs@.take(i + 1);
            assert(t.drop_last() =~= cs@.take(i as int));
            assert(t.last() == cs@[i as int]);
            if i > 0 {
                assert(t[t.len() - 2] == cs@[i - 1]);
            }
        }
        if !white && prev_white {
            n = n + 1;
        }
        prev_white = white;
        i = i + 1;
    }
    assert(cs@.take(cs@.len() as int) =~= cs@);
    n
}

/// The token estimate of an embedding request: the number of words over
/// all its texts.
pub fn embedding_token_count(texts: &[String]) -> (n: usize)
    requires
        total_words(texts@) <= usize::MAX,
    ensures
        n == total_words(texts@),
{
    let mut n: usize = 0;
    let mut j: usize = 0;
    while j < texts.len()
        invariant
            j <= texts@.len(),
            n == total_words(texts@.take(j as int)),
            total_words(texts@) <= usize::MAX,
        decreases texts@.len() - j,
    {
        let c = count_words(texts[j].as_str());
        proof {
            let t = texts@.take(j + 1);
            assert(t.drop_last() =~= texts@.take(j as int));
            assert(t.last() == texts@[j as int]);
            lemma_total_words_prefix(texts@, j + 1);
        }
        n = n + c;
        j = j + 1;
    }
    assert(texts@.take(texts@.len() as int) =~= texts@);
    n
}

/// Makes sure a model is loaded before it is used: a loaded model is left
/// as it is; otherwise it is loaded with the default configuration, and a
/// model that cannot be loaded is reported as not found.
pub fn ensure_model_loaded(manager: &mut ModelManager, model_id: &str) -> (r: Result<(), AppError>)
    ensures
        old(manager).loaded_view().contains(model_id@) ==> r is Ok
            && final(manager).loaded_view() == old(manager).loaded_view()
            && final(manager).models_view() == old(manager).models_view(),
        !old(manager).loaded_view().contains(model_id@) ==> (r is Ok <==> find_model(old(manager).models_view(), model_id@) is Some),
        r is Ok ==> final(manager).loaded_view() == old(manager).loaded_view().insert(model_id@),
        r matches Err(e) ==> (e matches AppError::ModelNotFound(m) && m@ == "Model not found: "@ + model_id@)
            && final(manager).loaded_view() == old(manager).loaded_view()
            && final(manager).models_view() == old(manager).models_view(),
{
    if manager.is_loaded(model_id) {
        proof {
            assert(manager.loaded_view().insert(model_id@) =~= manager.loaded_view());
        }
        return Ok(());
    }
    match manager.load_model(model_id, ModelConfig::default()) {
        Ok(()) => Ok(()),
        Err(e) => {
            let m = e.message();
            Err(AppError::ModelNotFound(m))
        },
    }
}

} // verus!
