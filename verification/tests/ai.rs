use devpilot::ai::{
    chat_body, claude_body, gemini_body, parse_models, split_system, status_error, stream_token,
    LineMode, StreamDecoder, StreamFormat,
};
use devpilot::entities::{ChatMessage, Role};
use devpilot::errors::LlmError;
use devpilot::manifest::JsonValue;

/// Decodes a whole response body, delivered in chunks, into its tokens.
fn drain(chunks: &[&str], mode: LineMode, format: StreamFormat) -> Vec<String> {
    let mut decoder = StreamDecoder::new(mode);
    let mut tokens = Vec::new();
    for chunk in chunks {
        for payload in decoder.feed(chunk) {
            if let Some(t) = stream_token(format, &payload) {
                tokens.push(t);
            }
        }
    }
    if let Some(payload) = decoder.finish() {
        if let Some(t) = stream_token(format, &payload) {
            tokens.push(t);
        }
    }
    tokens
}

fn request() -> Vec<ChatMessage> {
    vec![
        ChatMessage::new(Role::System, "be brief".to_string()),
        ChatMessage::new(Role::User, "hi".to_string()),
    ]
}

#[test]
fn ollama_streams_ndjson_content() {
    let body = "{\"message\":{\"role\":\"assistant\",\"content\":\"Hel\"},\"done\":false}\n\
                {\"message\":{\"role\":\"assistant\",\"content\":\"lo\"},\"done\":false}\n\
                {\"message\":{\"role\":\"assistant\",\"content\":\"\"},\"done\":true}\n";
    assert_eq!(drain(&[body], LineMode::Ndjson, StreamFormat::Ollama), vec!["Hel", "lo"]);
}

#[test]
fn ollama_lists_models() {
    let models = parse_models("{\"models\":[{\"name\":\"llama3\"},{\"name\":\"qwen\"}]}", "models", "name")
        .expect("models");
    let ids: Vec<&str> = models.iter().map(|m| m.id.as_str()).collect();
    assert_eq!(ids, vec!["llama3", "qwen"]);
    assert!(models.iter().all(|m| m.context_window.is_none()));
}

#[test]
fn openai_streams_sse_content() {
    let body = "data: {\"choices\":[{\"delta\":{\"content\":\"Hi\"}}]}\n\
                data: {\"choices\":[{\"delta\":{\"content\":\" there\"}}]}\n\
                data: [DONE]\n";
    assert_eq!(drain(&[body], LineMode::Sse, StreamFormat::OpenAi), vec!["Hi", " there"]);
}

#[test]
fn openai_maps_401_to_auth_failed() {
    assert_eq!(status_error(401, "{\"error\":\"bad key\"}"), LlmError::AuthFailed);
}

#[test]
fn claude_streams_content_block_deltas() {
    let body = "data: {\"type\":\"message_start\"}\n\
                data: {\"type\":\"content_block_delta\",\"delta\":{\"type\":\"text_delta\",\"text\":\"Hello\"}}\n\
                data: {\"type\":\"content_block_delta\",\"delta\":{\"type\":\"text_delta\",\"text\":\" world\"}}\n\
                data: {\"type\":\"message_stop\"}\n";
    assert_eq!(drain(&[body], LineMode::Sse, StreamFormat::Claude), vec!["Hello", " world"]);
}

#[test]
fn gemini_streams_sse_candidates() {
    let body = "data: {\"candidates\":[{\"content\":{\"parts\":[{\"text\":\"Ge\"}]}}]}\n\
                data: {\"candidates\":[{\"content\":{\"parts\":[{\"text\":\"mini\"}]}}]}\n";
    assert_eq!(drain(&[body], LineMode::Sse, StreamFormat::Gemini), vec!["Ge", "mini"]);
}

#[test]
fn rate_limit_maps_to_typed_error() {
    assert!(matches!(status_error(429, "slow down"), LlmError::RateLimited { .. }));
}

#[test]
fn status_errors_cover_every_kind() {
    assert_eq!(status_error(403, ""), LlmError::AuthFailed);
    assert_eq!(status_error(413, ""), LlmError::ContextTooLong);
    assert_eq!(status_error(400, "Maximum CONTEXT length exceeded"), LlmError::ContextTooLong);
    assert_eq!(
        status_error(400, "  bad request \n"),
        LlmError::Backend("HTTP 400: bad request".to_string())
    );
    assert_eq!(
        status_error(500, "oops"),
        LlmError::Backend("HTTP 500: oops".to_string())
    );
    assert_eq!(status_error(500, "oops").message(), "provider error: HTTP 500: oops");
}

#[test]
fn lines_split_across_chunks_are_reassembled() {
    let chunks = [
        "data: {\"choices\":[{\"delta\":{\"con",
        "tent\":\"A\"}}]}\ndata: {\"choices\":[{\"delta\":{\"content\":\"B\"}}]}",
    ];
    // The second line has no terminator: it is decoded at the end.
    assert_eq!(drain(&chunks, LineMode::Sse, StreamFormat::OpenAi), vec!["A", "B"]);
}

#[test]
fn done_marker_ends_the_stream() {
    let mut decoder = StreamDecoder::new(LineMode::Sse);
    let out = decoder.feed("data: one\ndata: [DONE]\ndata: two\n");
    assert_eq!(out, vec!["one".to_string()]);
    assert!(decoder.done);
    assert!(decoder.feed("data: three\n").is_empty());
    assert_eq!(decoder.finish(), None);
}

#[test]
fn sse_lines_without_data_are_skipped_and_tail_is_kept() {
    let mut decoder = StreamDecoder::new(LineMode::Sse);
    assert_eq!(decoder.feed(": comment\nevent: x\ndata:  pay  \r\npartial"), vec!["pay".to_string()]);
    assert_eq!(decoder.buffer.iter().collect::<String>(), "partial");
    assert_eq!(decoder.finish(), None);
}

#[test]
fn non_json_payloads_carry_no_token() {
    assert_eq!(stream_token(StreamFormat::Ollama, "not json"), None);
    assert_eq!(stream_token(StreamFormat::Ollama, "{\"message\":{\"content\":\"x\"}}"), Some("x".to_string()));
    assert!(parse_models("<html>", "data", "id").is_none());
    assert_eq!(parse_models("{\"data\":3}", "data", "id").map(|m| m.len()), Some(0));
}

fn entries(v: &JsonValue) -> Vec<(&str, &JsonValue)> {
    match v {
        JsonValue::Object(e) => e.iter().map(|(k, x)| (k.as_str(), x)).collect(),
        _ => panic!("not an object"),
    }
}

#[test]
fn chat_body_sends_model_messages_and_stream() {
    let body = chat_body("gpt-4o", &request());
    let e = entries(&body);
    let keys: Vec<&str> = e.iter().map(|p| p.0).collect();
    assert_eq!(keys, vec!["model", "messages", "stream"]);
    assert!(matches!(e[0].1, JsonValue::Str(s) if s == "gpt-4o"));
    assert!(matches!(e[2].1, JsonValue::Bool(true)));
    match e[1].1 {
        JsonValue::Array(items) => assert_eq!(items.len(), 2),
        _ => panic!("messages"),
    }
}

#[test]
fn claude_body_moves_system_prompt_out_of_messages() {
    let body = claude_body("sonnet-4", &request());
    let e = entries(&body);
    let keys: Vec<&str> = e.iter().map(|p| p.0).collect();
    assert_eq!(keys, vec!["model", "max_tokens", "messages", "stream", "system"]);
    assert!(matches!(e[1].1, JsonValue::Number(n) if n == "4096"));
    assert!(matches!(e[4].1, JsonValue::Str(s) if s == "be brief"));
    match e[2].1 {
        JsonValue::Array(items) => assert_eq!(items.len(), 1),
        _ => panic!("messages"),
    }
}

#[test]
fn split_system_joins_system_prompts() {
    let messages = vec![
        ChatMessage::new(Role::System, "a".to_string()),
        ChatMessage::new(Role::User, "q".to_string()),
        ChatMessage::new(Role::System, "b".to_string()),
    ];
    let (system, turns) = split_system(&messages);
    assert_eq!(system, "a\nb");
    assert_eq!(turns.len(), 1);
    assert_eq!(turns[0].content, "q");
}

#[test]
fn gemini_body_holds_contents_and_system_instruction() {
    let body = gemini_body(&request());
    let e = entries(&body);
    let keys: Vec<&str> = e.iter().map(|p| p.0).collect();
    assert_eq!(keys, vec!["contents", "systemInstruction"]);
}

#[test]
fn every_chunking_decodes_the_same() {
    let body = "data: {\"choices\":[{\"delta\":{\"content\":\"A\"}}]}\ndata: {\"choices\":[{\"delta\":{\"content\":\"B\"}}]}\ndata: [DONE]\ndata: {\"choices\":[{\"delta\":{\"content\":\"C\"}}]}\n";
    let whole = drain(&[body], LineMode::Sse, StreamFormat::OpenAi);
    assert_eq!(whole, vec!["A", "B"]);
    for cut in 0..=body.len() {
        let (a, b) = body.split_at(cut);
        assert_eq!(drain(&[a, b], LineMode::Sse, StreamFormat::OpenAi), whole);
    }
}
