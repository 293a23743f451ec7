//! What the LLM provider adapters compute: request bodies, the framing of
//! streamed responses, the tokens in each streamed payload, model lists and
//! the mapping of failed responses to typed errors. The application sends
//! the requests and reads the responses.
use vstd::prelude::*;

use crate::entities::llm::MessageView;
use crate::entities::{ChatMessage, ModelInfo, Role};
use crate::errors::LlmError;
use crate::manifest::{json_get, json_of, json_str, parse_json, JsonValue};
use crate::order::views;
use crate::text::{
    append_chars, chars_of, concat, contains, contains_sub, decimal, decimal_string, has_prefix,
    join, lowercase, pieces_view, slice_to_vec, split, split_chars, starts_with_lit, string_of,
    to_lowercase, trim, trim_chars, trim_end, trim_end_chars, Separator,
};

verus! {

// --- Errors ------------------------------------------------------------------

/// The message of the backend error for `status` and `body`.
pub open spec fn backend_message(status: u16, body: Seq<char>) -> Seq<char> {
    "HTTP "@ + decimal(status as nat) + ": "@ + trim(body)
}

/// Whether `r` is the typed error for a failed response with HTTP `status`
/// and `body`: 401 and 403 reject the key, 429 throttles, 413 (or 400
/// mentioning the context) means the prompt is too long, and anything else
/// is a backend error quoting the status and the trimmed body.
pub open spec fn is_status_error(r: LlmError, status: u16, body: Seq<char>) -> bool {
    if status == 401 || status == 403 {
        r == LlmError::AuthFailed
    } else if status == 429 {
        r == LlmError::RateLimited { retry_after_seconds: None }
    } else if status == 413 {
        r == LlmError::ContextTooLong
    } else if status == 400 && contains_sub(lowercase(body), "context"@) {
        r == LlmError::ContextTooLong
    } else {
        r matches LlmError::Backend(m) && m@ == backend_message(status, body)
    }
}

/// Maps a non-success HTTP status and body to a typed error.
pub fn status_error(status: u16, body: &str) -> (r: LlmError)
    ensures
        is_status_error(r, status, body@),
{
    if status == 401 || status == 403 {
        return LlmError::AuthFailed;
    }
    if status == 429 {
        return LlmError::RateLimited { retry_after_seconds: None };
    }
    if status == 413 {
        return LlmError::ContextTooLong;
    }
    if status == 400 {
        let lowered = to_lowercase(body);
        let h = chars_of(&lowered);
        let w = chars_of("context");
        proof {
            reveal_strlit("context");
        }
        if contains(&h, &w) {
            return LlmError::ContextTooLong;
        }
    }
    let head = concat("HTTP ", &decimal_string(status as u64));
    let head = concat(&head, ": ");
    let b = chars_of(body);
    let t = trim_chars(&b);
    let msg = concat(&head, &string_of(&t));
    LlmError::Backend(msg)
}

// --- Stream framing ----------------------------------------------------------

/// How a streaming response is framed on the wire.
#[derive(Clone, Copy, PartialEq, Eq, Structural, Debug)]
pub enum LineMode {
    /// Server-Sent Events: payloads on `data:` lines.
    Sse,
    /// Newline-delimited JSON: one object per line.
    Ndjson,
}

/// The payload of one wire line: the trimmed value of an SSE `data:`
/// line, or a non-blank NDJSON line, trimmed.
pub open spec fn payload_spec(line: Seq<char>, mode: LineMode) -> Option<Seq<char>> {
    let l = trim_end(line);
    match mode {
        LineMode::Sse => if has_prefix(l, "data:"@) {
            Some(trim(l.skip(5)))
        } else {
            None
        },
        LineMode::Ndjson => if trim(l).len() == 0 {
            None
        } else {
            Some(trim(l))
        },
    }
}

/// Extracts the meaningful payload from one wire line, or none to skip it.
pub fn payload_of(line: &[char], mode: LineMode) -> (r: Option<Vec<char>>)
    ensures
        match r {
            Some(p) => payload_spec(line@, mode) == Some(p@),
            None => payload_spec(line@, mode) is None,
        },
{
    let l = trim_end_chars(line);
    match mode {
        LineMode::Sse => {
            if starts_with_lit(&l, "data:") {
                proof {
                    reveal_strlit("data:");
                }
                let rest = slice_to_vec(&l, 5, l.len());
                assert(rest@ == l@.skip(5));
                Some(trim_chars(&rest))
            } else {
                None
            }
        },
        LineMode::Ndjson => {
            let t = trim_chars(&l);
            if t.len() == 0 {
                None
            } else {
                Some(t)
            }
        },
    }
}

/// The sentinel that ends an SSE stream.
pub open spec fn done_marker() -> Seq<char> {
    "[DONE]"@
}

/// The complete lines of `text`, each with its newline.
pub open spec fn complete_lines(text: Seq<char>) -> Seq<Seq<char>> {
    let p = split(text, Separator::Char('\n'));
    Seq::new((p.len() - 1) as nat, |i: int| p[i].push('\n'))
}

/// The text after the last newline of `text`.
pub open spec fn pending_text(text: Seq<char>) -> Seq<char> {
    split(text, Separator::Char('\n')).last()
}

/// Reading `lines` from state `done`: whether the stream is over
/// afterwards, and the payloads to extract tokens from, in order. A
/// `[DONE]` payload ends the stream; nothing after it counts.
pub open spec fn frames(done: bool, lines: Seq<Seq<char>>, mode: LineMode) -> (bool, Seq<Seq<char>>)
    decreases lines.len(),
{
    if lines.len() == 0 {
        (done, Seq::empty())
    } else {
        let (d, out) = frames(done, lines.drop_last(), mode);
        if d {
            (true, out)
        } else {
            match payload_spec(lines.last(), mode) {
                Some(p) => if p == done_marker() {
                    (true, out)
                } else {
                    (false, out.push(p))
                },
                None => (false, out),
            }
        }
    }
}

/// The state after receiving `chunk` in state `(done, buffer)`: whether
/// the stream is over, the text after the last complete line, and the
/// payloads of the lines completed. Nothing changes once the stream is over.
pub open spec fn fed(done: bool, buffer: Seq<char>, chunk: Seq<char>, mode: LineMode) -> (
    bool,
    Seq<char>,
    Seq<Seq<char>>,
) {
    if done {
        (true, buffer, Seq::empty())
    } else {
        let text = buffer + chunk;
        let (d, out) = frames(false, complete_lines(text), mode);
        (d, pending_text(text), out)
    }
}

/// The complete lines of `a + b` are those of `a`, then those of the text
/// after `a`'s last newline followed by `b`; what remains is the same.
proof fn lemma_lines_append(a: Seq<char>, b: Seq<char>)
    ensures
        complete_lines(a + b) == complete_lines(a) + complete_lines(pending_text(a) + b),
        pending_text(a + b) == pending_text(pending_text(a) + b),
{
    let sep = Separator::Char('\n');
    crate::text::lemma_split_append(a, b, sep);
    crate::text::lemma_split_nonempty(a, sep);
    crate::text::lemma_split_nonempty(pending_text(a) + b, sep);
    let d = split(a, sep).drop_last();
    let p = split(pending_text(a) + b, sep);
    let whole = split(a + b, sep);
    assert(whole == d + p);
    assert(complete_lines(a + b) =~= complete_lines(a) + complete_lines(pending_text(a) + b)) by {
        assert forall|i: int| 0 <= i < complete_lines(a + b).len() implies complete_lines(a + b)[i] == (
        complete_lines(a) + complete_lines(pending_text(a) + b))[i] by {
            if i < d.len() {
                assert(whole[i] == d[i]);
                assert(d[i] == split(a, sep)[i]);
            } else {
                assert(whole[i] == p[i - d.len()]);
            }
        }
    }
}

/// Reading lines in two runs is reading them at once.
proof fn lemma_frames_append(done: bool, l1: Seq<Seq<char>>, l2: Seq<Seq<char>>, mode: LineMode)
    ensures
        frames(done, l1 + l2, mode) == ({
            let (d1, o1) = frames(done, l1, mode);
            let (d2, o2) = frames(d1, l2, mode);
            (d2, o1 + o2)
        }),
    decreases l2.len(),
{
    if l2.len() == 0 {
        assert(l1 + l2 =~= l1);
        let (d1, o1) = frames(done, l1, mode);
        assert(o1 + Seq::<Seq<char>>::empty() =~= o1);
    } else {
        lemma_frames_append(done, l1, l2.drop_last(), mode);
        assert((l1 + l2).drop_last() =~= l1 + l2.drop_last());
        assert((l1 + l2).last() == l2.last());
        let (d1, o1) = frames(done, l1, mode);
        let (d2, o2) = frames(d1, l2.drop_last(), mode);
        assert(o1 + o2.push(l2.last()) =~= (o1 + o2).push(l2.last()));
        match payload_spec(l2.last(), mode) {
            Some(p) => {
                assert((o1 + o2).push(p) =~= o1 + o2.push(p));
            },
            None => {},
        }
    }
}

/// Once the stream is over, lines yield nothing.
proof fn lemma_frames_done(lines: Seq<Seq<char>>, mode: LineMode)
    ensures
        frames(true, lines, mode) == (true, Seq::<Seq<char>>::empty()),
    decreases lines.len(),
{
    if lines.len() > 0 {
        lemma_frames_done(lines.drop_last(), mode);
    }
}

/// Chunk boundaries do not matter: receiving `c1` and then `c2` yields
/// the payloads that receiving `c1 + c2` at once yields, ends the stream
/// at the same point and, while it goes on, leaves the same text pending.
/// By induction, a body decodes the same however it is cut into chunks.
pub proof fn law_chunking_does_not_matter(
    done: bool,
    buffer: Seq<char>,
    c1: Seq<char>,
    c2: Seq<char>,
    mode: LineMode,
)
    ensures
        ({
            let (d1, b1, o1) = fed(done, buffer, c1, mode);
            let (d2, b2, o2) = fed(d1, b1, c2, mode);
            let (d, b, o) = fed(done, buffer, c1 + c2, mode);
            &&& d2 == d
            &&& o1 + o2 == o
            &&& !d ==> b2 == b
        }),
{
    if done {
        assert(Seq::<Seq<char>>::empty() + Seq::<Seq<char>>::empty() =~= Seq::<Seq<char>>::empty());
    } else {
        let t1 = buffer + c1;
        assert(buffer + (c1 + c2) =~= t1 + c2);
        lemma_lines_append(t1, c2);
        let l1 = complete_lines(t1);
        let l2 = complete_lines(pending_text(t1) + c2);
        lemma_frames_append(false, l1, l2, mode);
        let (d1, o1) = frames(false, l1, mode);
        if d1 {
            lemma_frames_done(l2, mode);
            assert(o1 + Seq::<Seq<char>>::empty() =~= o1);
        }
    }
}

/// Buffers a streamed response body by line and yields the payloads of
/// complete lines until the stream ends.
#[derive(Debug)]
pub struct StreamDecoder {
    /// Text received after the last complete line.
    pub buffer: Vec<char>,
    /// Framing of the stream.
    pub mode: LineMode,
    /// Whether a `[DONE]` payload ended the stream.
    pub done: bool,
}

impl StreamDecoder {
    /// A decoder that has received nothing.
    pub fn new(mode: LineMode) -> (r: StreamDecoder)
        ensures
            r.buffer@.len() == 0,
            r.mode == mode,
            !r.done,
    {
        StreamDecoder { buffer: Vec::new(), mode, done: false }
    }

    /// Receives a chunk of text and returns the payloads of the lines it
    /// completes, in order.
    pub fn feed(&mut self, chunk: &str) -> (r: Vec<String>)
        ensures
            final(self).mode == old(self).mode,
            (final(self).done, final(self).buffer@, crate::entities::ast::strings_view(r@)) == fed(
                old(self).done,
                old(self).buffer@,
                chunk@,
                old(self).mode,
            ),
    {
        let mut out: Vec<String> = Vec::new();
        if self.done {
            assert(crate::entities::ast::strings_view(out@) =~= Seq::<Seq<char>>::empty());
            return out;
        }
        let mut text = self.buffer.clone();
        let c = chars_of(chunk);
        append_chars(&mut text, &c);
        let ghost t = text@;
        assert(t == self.buffer@ + chunk@);
        let pieces = split_chars(&text, Separator::Char('\n'));
        proof {
            crate::text::lemma_split_nonempty(t, Separator::Char('\n'));
        }
        let ghost lines = complete_lines(t);
        let n = pieces.len() - 1;
        let mut done = false;
        let mut i: usize = 0;
        assert(lines.take(0) =~= Seq::<Seq<char>>::empty());
        while i < n
            invariant
                n + 1 == pieces@.len(),
                pieces_view(pieces@) == split(t, Separator::Char('\n')),
                lines == complete_lines(t),
                i <= n,
                (done, crate::entities::ast::strings_view(out@)) == frames(
                    false,
                    lines.take(i as int),
                    self.mode,
                ),
            decreases n - i,
        {
            let mut line = pieces[i].clone();
            line.push('\n');
            assert(line@ == lines[i as int]);
            assert(lines.take(i + 1).drop_last() == lines.take(i as int));
            assert(lines.take(i + 1).last() == lines[i as int]);
            if !done {
                match payload_of(&line, self.mode) {
                    Some(p) => {
                        let marker = chars_of("[DONE]");
                        if crate::text::chars_eq(&p, &marker) {
                            done = true;
                        } else {
                            let ghost before = out@;
                            out.push(string_of(&p));
                            assert(crate::entities::ast::strings_view(out@)
                                =~= crate::entities::ast::strings_view(before).push(p@));
                        }
                    },
                    None => {},
                }
            }
            i += 1;
        }
        assert(lines.take(n as int) == lines);
        self.buffer = pieces[n].clone();
        self.done = done;
        assert(self.buffer@ == pending_text(t));
        out
    }

    /// The payload of the trailing text without a newline terminator, at
    /// the end of the body, unless the stream was over.
    pub fn finish(&self) -> (r: Option<String>)
        ensures
            self.done ==> r is None,
            !self.done ==> match payload_spec(self.buffer@, self.mode) {
                Some(p) => if p == done_marker() {
                    r is None
                } else {
                    r matches Some(s) && s@ == p
                },
                None => r is None,
            },
    {
        if self.done {
            return None;
        }
        match payload_of(&self.buffer, self.mode) {
            Some(p) => {
                let marker = chars_of("[DONE]");
                if crate::text::chars_eq(&p, &marker) {
                    None
                } else {
                    Some(string_of(&p))
                }
            },
            None => None,
        }
    }
}

// --- Reading responses ---------------------------------------------------------

/// Element `i` of an array (`Value::get` with an index); none for other
/// values.
pub open spec fn json_at(v: Option<JsonValue>, i: int) -> Option<JsonValue> {
    match v {
        Some(JsonValue::Array(a)) => if 0 <= i < a@.len() {
            Some(a@[i])
        } else {
            None
        },
        _ => None,
    }
}

/// The value at `key` of an object, if there is an object.
pub open spec fn json_key(v: Option<JsonValue>, key: Seq<char>) -> Option<JsonValue> {
    match v {
        Some(x) => json_get(x, key),
        None => None,
    }
}

/// The text of a string value, if there is one.
pub open spec fn json_text(v: Option<JsonValue>) -> Option<Seq<char>> {
    match v {
        Some(x) => json_str(x),
        None => None,
    }
}

/// A token: the text, unless it is empty.
pub open spec fn token_of(t: Option<Seq<char>>) -> Option<Seq<char>> {
    match t {
        Some(s) => if s.len() == 0 {
            None
        } else {
            Some(s)
        },
        None => None,
    }
}

/// Element `i` of an array value.
fn array_at(v: Option<&JsonValue>, i: usize) -> (r: Option<&JsonValue>)
    ensures
        match r {
            Some(x) => json_at(
                match v {
                    Some(y) => Some(*y),
                    None => None,
                },
                i as int,
            ) == Some(*x),
            None => json_at(
                match v {
                    Some(y) => Some(*y),
                    None => None,
                },
                i as int,
            ) is None,
        },
{
    match v {
        Some(JsonValue::Array(a)) => if i < a.len() {
            Some(&a[i])
        } else {
            None
        },
        _ => None,
    }
}

/// The value at `key` of an object value.
fn object_at<'a>(v: Option<&'a JsonValue>, key: &str) -> (r: Option<&'a JsonValue>)
    ensures
        match r {
            Some(x) => json_key(
                match v {
                    Some(y) => Some(*y),
                    None => None,
                },
                key@,
            ) == Some(*x),
            None => json_key(
                match v {
                    Some(y) => Some(*y),
                    None => None,
                },
                key@,
            ) is None,
        },
{
    match v {
        Some(x) => x.get(key),
        None => None,
    }
}

/// The non-empty text of a string value.
fn token_text(v: Option<&JsonValue>) -> (r: Option<String>)
    ensures
        match r {
            Some(s) => token_of(
                json_text(
                    match v {
                        Some(y) => Some(*y),
                        None => None,
                    },
                ),
            ) == Some(s@),
            None => token_of(
                json_text(
                    match v {
                        Some(y) => Some(*y),
                        None => None,
                    },
                ),
            ) is None,
        },
{
    match v {
        Some(x) => match x.as_str() {
            Some(t) => if t.is_empty() {
                None
            } else {
                Some(t.to_string())
            },
            None => None,
        },
        None => None,
    }
}

/// The token of an Anthropic stream event: the text of a
/// `content_block_delta`.
pub open spec fn claude_token_spec(v: JsonValue) -> Option<Seq<char>> {
    if json_text(json_get(v, "type"@)) == Some("content_block_delta"@) {
        token_of(json_text(json_key(json_get(v, "delta"@), "text"@)))
    } else {
        None
    }
}

/// The token of an OpenAI stream chunk: `choices[0].delta.content`.
pub open spec fn openai_token_spec(v: JsonValue) -> Option<Seq<char>> {
    token_of(json_text(json_key(json_key(json_at(json_get(v, "choices"@), 0), "delta"@), "content"@)))
}

/// The token of a Gemini stream chunk:
/// `candidates[0].content.parts[0].text`.
pub open spec fn gemini_token_spec(v: JsonValue) -> Option<Seq<char>> {
    let candidate = json_at(json_get(v, "candidates"@), 0);
    let parts = json_key(json_key(candidate, "content"@), "parts"@);
    token_of(json_text(json_key(json_at(parts, 0), "text"@)))
}

/// The token of an Ollama stream line: `message.content`.
pub open spec fn ollama_token_spec(v: JsonValue) -> Option<Seq<char>> {
    token_of(json_text(json_key(json_get(v, "message"@), "content"@)))
}

/// The token of a parsed Anthropic stream event.
pub fn claude_token_of(v: &JsonValue) -> (r: Option<String>)
    ensures
        match r {
            Some(s) => claude_token_spec(*v) == Some(s@),
            None => claude_token_spec(*v) is None,
        },
{
    let kind = match v.get("type") {
        Some(k) => k.as_str(),
        None => None,
    };
    let is_delta = match kind {
        Some(k) => {
            let kc = chars_of(k);
            crate::text::eq_lit(&kc, "content_block_delta")
        },
        None => false,
    };
    proof {
        reveal_strlit("content_block_delta");
    }
    if !is_delta {
        return None;
    }
    token_text(object_at(v.get("delta"), "text"))
}

/// The token of a parsed OpenAI stream chunk.
pub fn openai_token_of(v: &JsonValue) -> (r: Option<String>)
    ensures
        match r {
            Some(s) => openai_token_spec(*v) == Some(s@),
            None => openai_token_spec(*v) is None,
        },
{
    let choice = array_at(v.get("choices"), 0);
    token_text(object_at(object_at(choice, "delta"), "content"))
}

/// The token of a parsed Gemini stream chunk.
pub fn gemini_token_of(v: &JsonValue) -> (r: Option<String>)
    ensures
        match r {
            Some(s) => gemini_token_spec(*v) == Some(s@),
            None => gemini_token_spec(*v) is None,
        },
{
    let candidate = array_at(v.get("candidates"), 0);
    let parts = object_at(object_at(candidate, "content"), "parts");
    token_text(object_at(array_at(parts, 0), "text"))
}

/// The token of a parsed Ollama stream line.
pub fn ollama_token_of(v: &JsonValue) -> (r: Option<String>)
    ensures
        match r {
            Some(s) => ollama_token_spec(*v) == Some(s@),
            None => ollama_token_spec(*v) is None,
        },
{
    token_text(object_at(v.get("message"), "content"))
}

/// The provider whose stream a payload comes from.
#[derive(Clone, Copy, PartialEq, Eq, Structural, Debug)]
pub enum StreamFormat {
    /// Anthropic Messages API events.
    Claude,
    /// OpenAI chat completion chunks.
    OpenAi,
    /// Gemini `streamGenerateContent` chunks.
    Gemini,
    /// Ollama chat lines.
    Ollama,
}

/// The token a parsed payload carries, in a provider's format.
pub open spec fn token_spec(format: StreamFormat, v: JsonValue) -> Option<Seq<char>> {
    match format {
        StreamFormat::Claude => claude_token_spec(v),
        StreamFormat::OpenAi => openai_token_spec(v),
        StreamFormat::Gemini => gemini_token_spec(v),
        StreamFormat::Ollama => ollama_token_spec(v),
    }
}

/// The token a streamed payload carries: none when the payload is not
/// JSON or carries no text.
pub fn stream_token(format: StreamFormat, payload: &str) -> (r: Option<String>)
    ensures
        match json_of(payload@) {
            Some(v) => match r {
                Some(s) => token_spec(format, v) == Some(s@),
                None => token_spec(format, v) is None,
            },
            None => r is None,
        },
{
    match parse_json(payload) {
        Some(v) => match format {
            StreamFormat::Claude => claude_token_of(&v),
            StreamFormat::OpenAi => openai_token_of(&v),
            StreamFormat::Gemini => gemini_token_of(&v),
            StreamFormat::Ollama => ollama_token_of(&v),
        },
        None => None,
    }
}

/// The models a model-list response names: the `id_key` strings of the
/// items of its `list_key` array, in order.
pub open spec fn model_ids(body: JsonValue, list_key: Seq<char>, id_key: Seq<char>) -> Seq<Seq<char>> {
    match json_get(body, list_key) {
        Some(JsonValue::Array(items)) => ids_in(items@, id_key),
        _ => Seq::empty(),
    }
}

/// The `id_key` strings of `items`, skipping items without one.
pub open spec fn ids_in(items: Seq<JsonValue>, id_key: Seq<char>) -> Seq<Seq<char>>
    decreases items.len(),
{
    if items.len() == 0 {
        Seq::empty()
    } else {
        let r = ids_in(items.drop_last(), id_key);
        match json_text(json_get(items.last(), id_key)) {
            Some(id) => r.push(id),
            None => r,
        }
    }
}

/// The models of a parsed model-list response, without context windows.
pub fn model_list(body: &JsonValue, list_key: &str, id_key: &str) -> (r: Vec<ModelInfo>)
    ensures
        r@.map_values(|m: ModelInfo| m.id@) == model_ids(*body, list_key@, id_key@),
        forall|i: int| 0 <= i < r@.len() ==> r@[i].context_window is None,
{
    let mut r: Vec<ModelInfo> = Vec::new();
    let items = match body.get(list_key) {
        Some(JsonValue::Array(items)) => items,
        _ => {
            assert(r@.map_values(|m: ModelInfo| m.id@) =~= Seq::<Seq<char>>::empty());
            return r;
        },
    };
    let mut i: usize = 0;
    assert(items@.take(0) =~= Seq::<JsonValue>::empty());
    assert(r@.map_values(|m: ModelInfo| m.id@) =~= Seq::<Seq<char>>::empty());
    while i < items.len()
        invariant
            i <= items@.len(),
            r@.map_values(|m: ModelInfo| m.id@) == ids_in(items@.take(i as int), id_key@),
            forall|j: int| 0 <= j < r@.len() ==> r@[j].context_window is None,
        decreases items@.len() - i,
    {
        assert(items@.take(i + 1).drop_last() == items@.take(i as int));
        assert(items@.take(i + 1).last() == items@[i as int]);
        let ghost before = r@;
        match items[i].get(id_key) {
            Some(x) => match x.as_str() {
                Some(id) => {
                    r.push(ModelInfo { id: id.to_string(), context_window: None });
                    assert(r@.map_values(|m: ModelInfo| m.id@) =~= before.map_values(
                        |m: ModelInfo| m.id@,
                    ).push(id@));
                },
                None => {},
            },
            None => {},
        }
        i += 1;
    }
    assert(items@.take(items@.len() as int) == items@);
    r
}

/// The models of a model-list response body: none when the body is not
/// JSON, else the `id_key` strings of the items of its `list_key` array,
/// without context windows.
pub fn parse_models(body: &str, list_key: &str, id_key: &str) -> (r: Option<Vec<ModelInfo>>)
    ensures
        match json_of(body@) {
            Some(v) => r matches Some(ms) && ms@.map_values(|m: ModelInfo| m.id@) == model_ids(
                v,
                list_key@,
                id_key@,
            ) && (forall|i: int| 0 <= i < ms@.len() ==> ms@[i].context_window is None),
            None => r is None,
        },
{
    match parse_json(body) {
        Some(v) => Some(model_list(&v, list_key, id_key)),
        None => None,
    }
}

// --- Requests ------------------------------------------------------------------

/// Response length cap sent to the Anthropic API, which requires `max_tokens`.
pub const CLAUDE_MAX_TOKENS: u64 = 4096;

/// The wire name of a role.
pub open spec fn role_name(r: Role) -> Seq<char> {
    match r {
        Role::System => "system"@,
        Role::User => "user"@,
        Role::Assistant => "assistant"@,
    }
}

/// The contents of the system messages, in order.
pub open spec fn system_contents(msgs: Seq<MessageView>) -> Seq<Seq<char>>
    decreases msgs.len(),
{
    if msgs.len() == 0 {
        Seq::empty()
    } else if msgs.last().role == Role::System {
        system_contents(msgs.drop_last()).push(msgs.last().content)
    } else {
        system_contents(msgs.drop_last())
    }
}

/// The system prompts of a conversation joined by newlines.
pub open spec fn system_text(msgs: Seq<MessageView>) -> Seq<char> {
    join(system_contents(msgs), "\n"@)
}

/// The user and assistant turns of a conversation, in order.
pub open spec fn turns_of(msgs: Seq<MessageView>) -> Seq<MessageView>
    decreases msgs.len(),
{
    if msgs.len() == 0 {
        Seq::empty()
    } else if msgs.last().role == Role::System {
        turns_of(msgs.drop_last())
    } else {
        turns_of(msgs.drop_last()).push(msgs.last())
    }
}

/// Whether `v` is the string `s`.
pub open spec fn is_str(v: JsonValue, s: Seq<char>) -> bool {
    v matches JsonValue::Str(x) && x@ == s
}

/// Whether `entry` is the key `key` with a value satisfying `f`.
pub open spec fn is_entry(entry: (String, JsonValue), key: Seq<char>, f: spec_fn(JsonValue) -> bool) -> bool {
    entry.0@ == key && f(entry.1)
}

/// Whether `v` is an object whose entries satisfy `fs` in order.
pub open spec fn is_object(v: JsonValue, keys: Seq<Seq<char>>, fs: Seq<spec_fn(JsonValue) -> bool>) -> bool {
    v matches JsonValue::Object(e) && e@.len() == keys.len() && fs.len() == keys.len() && forall|
        i: int,
    | 0 <= i < keys.len() ==> #[trigger] is_entry(e@[i], keys[i], fs[i])
}

/// Whether `v` is a message as OpenAI, Ollama and Anthropic take it:
/// `{"role": ..., "content": ...}`.
pub open spec fn is_message_json(v: JsonValue, m: MessageView) -> bool {
    is_object(
        v,
        seq!["role"@, "content"@],
        seq![|x: JsonValue| is_str(x, role_name(m.role)), |x: JsonValue| is_str(x, m.content)],
    )
}

/// Whether `v` is an array of the messages `ms`.
pub open spec fn is_messages_json(v: JsonValue, ms: Seq<MessageView>) -> bool {
    v matches JsonValue::Array(a) && a@.len() == ms.len() && forall|i: int|
        0 <= i < ms.len() ==> #[trigger] is_message_json(a@[i], ms[i])
}

/// A string value.
fn json_string(s: &str) -> (r: JsonValue)
    ensures
        is_str(r, s@),
{
    JsonValue::Str(s.to_string())
}

/// A message as a JSON object.
fn message_json(m: &ChatMessage) -> (r: JsonValue)
    ensures
        is_message_json(r, m@),
{
    let role = match m.role {
        Role::System => "system",
        Role::User => "user",
        Role::Assistant => "assistant",
    };
    let mut e: Vec<(String, JsonValue)> = Vec::new();
    e.push(("role".to_string(), json_string(role)));
    e.push(("content".to_string(), json_string(&m.content)));
    let r = JsonValue::Object(e);
    let ghost fs = seq![|x: JsonValue| is_str(x, role_name(m@.role)), |x: JsonValue| is_str(x, m@.content)];
    let ghost keys = seq!["role"@, "content"@];
    assert forall|i: int| 0 <= i < keys.len() implies #[trigger] is_entry(e@[i], keys[i], fs[i]) by {
        if i == 0 {
            assert(is_str(e@[0].1, role_name(m@.role)));
        } else {
            assert(is_str(e@[1].1, m@.content));
        }
    }
    r
}

/// An array of messages.
fn messages_json(ms: &Vec<ChatMessage>) -> (r: JsonValue)
    ensures
        is_messages_json(r, views(ms@)),
{
    let mut a: Vec<JsonValue> = Vec::new();
    let mut i: usize = 0;
    while i < ms.len()
        invariant
            i <= ms@.len(),
            a@.len() == i,
            forall|j: int| 0 <= j < i ==> #[trigger] is_message_json(a@[j], ms@[j]@),
        decreases ms@.len() - i,
    {
        a.push(message_json(&ms[i]));
        i += 1;
    }
    let r = JsonValue::Array(a);
    assert forall|j: int| 0 <= j < views(ms@).len() implies #[trigger] is_message_json(
        a@[j],
        views(ms@)[j],
    ) by {
        assert(views(ms@)[j] == ms@[j]@);
    }
    r
}

/// Splits a conversation into its joined system prompt and its turns.
pub fn split_system(messages: &Vec<ChatMessage>) -> (r: (String, Vec<ChatMessage>))
    ensures
        r.0@ == system_text(views(messages@)),
        views(r.1@) == turns_of(views(messages@)),
{
    let ghost mv = views(messages@);
    let mut system: Vec<Vec<char>> = Vec::new();
    let mut turns: Vec<ChatMessage> = Vec::new();
    let mut i: usize = 0;
    assert(mv.take(0) =~= Seq::<MessageView>::empty());
    while i < messages.len()
        invariant
            i <= messages@.len(),
            mv == views(messages@),
            pieces_view(system@) == system_contents(mv.take(i as int)),
            views(turns@) == turns_of(mv.take(i as int)),
        decreases messages@.len() - i,
    {
        assert(mv.take(i + 1).drop_last() == mv.take(i as int));
        assert(mv.take(i + 1).last() == messages@[i as int]@);
        let m = &messages[i];
        if m.role == Role::System {
            let ghost before = pieces_view(system@);
            system.push(chars_of(&m.content));
            assert(pieces_view(system@) =~= before.push(m.content@));
        } else {
            let ghost before = views(turns@);
            turns.push(m.duplicate());
            assert(views(turns@) =~= before.push(m@));
        }
        i += 1;
    }
    assert(mv.take(messages@.len() as int) == mv);
    let newline = ['\n'];
    assert(newline@ == "\n"@) by {
        reveal_strlit("\n");
    }
    let joined = crate::text::join_chars(&system, &newline);
    (string_of(&joined), turns)
}

/// Whether `v` is the body of a streaming OpenAI or Ollama chat request:
/// `{"model", "messages", "stream": true}`.
pub open spec fn is_chat_body(v: JsonValue, model: Seq<char>, msgs: Seq<MessageView>) -> bool {
    is_object(
        v,
        seq!["model"@, "messages"@, "stream"@],
        seq![
            |x: JsonValue| is_str(x, model),
            |x: JsonValue| is_messages_json(x, msgs),
            |x: JsonValue| x matches JsonValue::Bool(b) && b,
        ],
    )
}

/// The body of a streaming OpenAI or Ollama chat request, before any
/// sampling temperature is added.
pub fn chat_body(model: &str, messages: &Vec<ChatMessage>) -> (r: JsonValue)
    ensures
        is_chat_body(r, model@, views(messages@)),
{
    let mut e: Vec<(String, JsonValue)> = Vec::new();
    e.push(("model".to_string(), json_string(model)));
    e.push(("messages".to_string(), messages_json(messages)));
    e.push(("stream".to_string(), JsonValue::Bool(true)));
    let ghost keys = seq!["model"@, "messages"@, "stream"@];
    let ghost fs = seq![
        |x: JsonValue| is_str(x, model@),
        |x: JsonValue| is_messages_json(x, views(messages@)),
        |x: JsonValue| x matches JsonValue::Bool(b) && b,
    ];
    assert forall|i: int| 0 <= i < keys.len() implies #[trigger] is_entry(e@[i], keys[i], fs[i]) by {
        if i == 0 {
            assert(is_str(e@[0].1, model@));
        } else if i == 1 {
            assert(is_messages_json(e@[1].1, views(messages@)));
        }
    }
    JsonValue::Object(e)
}

/// Whether `v` is the body of a streaming Anthropic request: the model, the
/// token cap, the turns, `stream: true`, and the system prompt when there
/// is one.
pub open spec fn is_claude_body(v: JsonValue, model: Seq<char>, msgs: Seq<MessageView>) -> bool {
    let system = system_text(msgs);
    let keys = seq!["model"@, "max_tokens"@, "messages"@, "stream"@];
    let fs = seq![
        |x: JsonValue| is_str(x, model),
        |x: JsonValue| x matches JsonValue::Number(n) && n@ == decimal(CLAUDE_MAX_TOKENS as nat),
        |x: JsonValue| is_messages_json(x, turns_of(msgs)),
        |x: JsonValue| x matches JsonValue::Bool(b) && b,
    ];
    if system.len() == 0 {
        is_object(v, keys, fs)
    } else {
        is_object(v, keys.push("system"@), fs.push(|x: JsonValue| is_str(x, system)))
    }
}

/// The body of a streaming Anthropic request, before any sampling
/// temperature is added. Anthropic takes system prompts in a field of their
/// own; the messages list holds only user and assistant turns.
pub fn claude_body(model: &str, messages: &Vec<ChatMessage>) -> (r: JsonValue)
    ensures
        is_claude_body(r, model@, views(messages@)),
{
    let (system, turns) = split_system(messages);
    let mut e: Vec<(String, JsonValue)> = Vec::new();
    e.push(("model".to_string(), json_string(model)));
    e.push(("max_tokens".to_string(), JsonValue::Number(decimal_string(CLAUDE_MAX_TOKENS))));
    e.push(("messages".to_string(), messages_json(&turns)));
    e.push(("stream".to_string(), JsonValue::Bool(true)));
    let ghost sys = system_text(views(messages@));
    let ghost keys = seq!["model"@, "max_tokens"@, "messages"@, "stream"@];
    let ghost fs = seq![
        |x: JsonValue| is_str(x, model@),
        |x: JsonValue| x matches JsonValue::Number(n) && n@ == decimal(CLAUDE_MAX_TOKENS as nat),
        |x: JsonValue| is_messages_json(x, turns_of(views(messages@))),
        |x: JsonValue| x matches JsonValue::Bool(b) && b,
    ];
    assert forall|i: int| 0 <= i < keys.len() implies #[trigger] is_entry(e@[i], keys[i], fs[i]) by {
        if i == 0 {
            assert(is_str(e@[0].1, model@));
        } else if i == 2 {
            assert(is_messages_json(e@[2].1, turns_of(views(messages@))));
        }
    }
    if !system.as_str().is_empty() {
        let ghost e4 = e@;
        e.push(("system".to_string(), json_string(&system)));
        let ghost keys5 = keys.push("system"@);
        let ghost fs5 = fs.push(|x: JsonValue| is_str(x, sys));
        assert forall|i: int| 0 <= i < keys5.len() implies #[trigger] is_entry(
            e@[i],
            keys5[i],
            fs5[i],
        ) by {
            if i < 4 {
                assert(e@[i] == e4[i]);
                assert(is_entry(e4[i], keys[i], fs[i]));
            } else {
                assert(is_str(e@[4].1, sys));
            }
        }
    } else {
        assert(system@.len() == 0);
    }
    JsonValue::Object(e)
}

/// Whether `v` is `[{"text": t}]`.
pub open spec fn is_text_parts(v: JsonValue, t: Seq<char>) -> bool {
    v matches JsonValue::Array(a) && a@.len() == 1 && is_object(
        a@[0],
        seq!["text"@],
        seq![|x: JsonValue| is_str(x, t)],
    )
}

/// Gemini's name for the author of a turn.
pub open spec fn gemini_role(r: Role) -> Seq<char> {
    if r == Role::Assistant {
        "model"@
    } else {
        "user"@
    }
}

/// Whether `v` is a Gemini turn: `{"role", "parts": [{"text"}]}`.
pub open spec fn is_gemini_turn(v: JsonValue, m: MessageView) -> bool {
    is_object(
        v,
        seq!["role"@, "parts"@],
        seq![|x: JsonValue| is_str(x, gemini_role(m.role)), |x: JsonValue| is_text_parts(x, m.content)],
    )
}

/// Whether `v` is the body of a Gemini request: the turns as `contents`,
/// and the system prompt as `systemInstruction` when there is one.
pub open spec fn is_gemini_body(v: JsonValue, msgs: Seq<MessageView>) -> bool {
    let turns = turns_of(msgs);
    let system = system_text(msgs);
    let contents = |x: JsonValue|
        x matches JsonValue::Array(a) && a@.len() == turns.len() && forall|i: int|
            0 <= i < turns.len() ==> #[trigger] is_gemini_turn(a@[i], turns[i]);
    if system.len() == 0 {
        is_object(v, seq!["contents"@], seq![contents])
    } else {
        is_object(
            v,
            seq!["contents"@, "systemInstruction"@],
            seq![
                contents,
                |x: JsonValue| is_object(
                    x,
                    seq!["parts"@],
                    seq![|y: JsonValue| is_text_parts(y, system)],
                ),
            ],
        )
    }
}

/// `[{"text": t}]`.
fn text_parts(t: &str) -> (r: JsonValue)
    ensures
        is_text_parts(r, t@),
{
    let mut e: Vec<(String, JsonValue)> = Vec::new();
    e.push(("text".to_string(), json_string(t)));
    let part = JsonValue::Object(e);
    let ghost keys = seq!["text"@];
    let ghost fs = seq![|x: JsonValue| is_str(x, t@)];
    assert forall|i: int| 0 <= i < keys.len() implies #[trigger] is_entry(e@[i], keys[i], fs[i]) by {
        assert(is_str(e@[0].1, t@));
    }
    let mut a: Vec<JsonValue> = Vec::new();
    a.push(part);
    JsonValue::Array(a)
}

/// One Gemini turn.
fn gemini_turn(m: &ChatMessage) -> (r: JsonValue)
    ensures
        is_gemini_turn(r, m@),
{
    let role = if m.role == Role::Assistant {
        "model"
    } else {
        "user"
    };
    let mut e: Vec<(String, JsonValue)> = Vec::new();
    e.push(("role".to_string(), json_string(role)));
    e.push(("parts".to_string(), text_parts(&m.content)));
    let ghost keys = seq!["role"@, "parts"@];
    let ghost fs = seq![
        |x: JsonValue| is_str(x, gemini_role(m@.role)),
        |x: JsonValue| is_text_parts(x, m@.content),
    ];
    assert forall|i: int| 0 <= i < keys.len() implies #[trigger] is_entry(e@[i], keys[i], fs[i]) by {
        if i == 0 {
            assert(is_str(e@[0].1, gemini_role(m@.role)));
        } else {
            assert(is_text_parts(e@[1].1, m@.content));
        }
    }
    JsonValue::Object(e)
}

/// The body of a streaming Gemini request, before any generation config
/// is added.
pub fn gemini_body(messages: &Vec<ChatMessage>) -> (r: JsonValue)
    ensures
        is_gemini_body(r, views(messages@)),
{
    let (system, turns) = split_system(messages);
    let ghost tv = turns_of(views(messages@));
    let mut a: Vec<JsonValue> = Vec::new();
    let mut i: usize = 0;
    while i < turns.len()
        invariant
            i <= turns@.len(),
            views(turns@) == tv,
            a@.len() == i,
            forall|j: int| 0 <= j < i ==> #[trigger] is_gemini_turn(a@[j], tv[j]),
        decreases turns@.len() - i,
    {
        assert(tv[i as int] == turns@[i as int]@);
        a.push(gemini_turn(&turns[i]));
        i += 1;
    }
    let contents = JsonValue::Array(a);
    let ghost cf = |x: JsonValue|
        x matches JsonValue::Array(a) && a@.len() == tv.len() && forall|i: int|
            0 <= i < tv.len() ==> #[trigger] is_gemini_turn(a@[i], tv[i]);
    assert(cf(contents));
    let mut e: Vec<(String, JsonValue)> = Vec::new();
    e.push(("contents".to_string(), contents));
    let ghost sys = system_text(views(messages@));
    if !system.as_str().is_empty() {
        let mut p: Vec<(String, JsonValue)> = Vec::new();
        p.push(("parts".to_string(), text_parts(&system)));
        let ghost pkeys = seq!["parts"@];
        let ghost pfs = seq![|y: JsonValue| is_text_parts(y, sys)];
        assert forall|i: int| 0 <= i < pkeys.len() implies #[trigger] is_entry(p@[i], pkeys[i], pfs[i]) by {
            assert(is_text_parts(p@[0].1, sys));
        }
        let instruction = JsonValue::Object(p);
        let ghost sf = |x: JsonValue| is_object(x, seq!["parts"@], seq![|y: JsonValue| is_text_parts(y, sys)]);
        assert(sf(instruction)) by {
            assert(pkeys =~= seq!["parts"@]);
        }
        e.push(("systemInstruction".to_string(), instruction));
        let ghost keys = seq!["contents"@, "systemInstruction"@];
        let ghost fs = seq![cf, sf];
        assert forall|i: int| 0 <= i < keys.len() implies #[trigger] is_entry(e@[i], keys[i], fs[i]) by {
            if i == 0 {
                assert(cf(e@[0].1));
            } else {
                assert(sf(e@[1].1));
            }
        }
    } else {
        let ghost keys = seq!["contents"@];
        let ghost fs = seq![cf];
        assert forall|i: int| 0 <= i < keys.len() implies #[trigger] is_entry(e@[i], keys[i], fs[i]) by {
            assert(cf(e@[0].1));
        }
    }
    JsonValue::Object(e)
}

} // verus!
