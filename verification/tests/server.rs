use ai_memory::server::{
    ok_json, query_response, status_response, AiMemoryServer, QueryArgs, RecentArgs,
    MEMORY_INSTRUCTIONS,
};
use serde_json::Value;

fn recent_limit(limit: Option<usize>) -> usize {
    AiMemoryServer::new(()).memory_recent(RecentArgs { limit }).limit
}

fn text_of(result: &rmcp::model::CallToolResult) -> String {
    assert_eq!(result.content.len(), 1);
    match result.content.first().and_then(|c| c.as_text()) {
        Some(t) => t.text.clone(),
        None => panic!("expected text content"),
    }
}

fn object(key: &str, value: Value) -> Value {
    let mut fields = serde_json::Map::new();
    fields.insert(key.to_string(), value);
    Value::Object(fields)
}

#[test]
fn the_server_keeps_its_reader() {
    let server = AiMemoryServer::new("reader");
    assert_eq!(*server.reader(), "reader");
}

#[test]
fn a_clone_serves_as_the_server_does() {
    let server = AiMemoryServer::new("reader".to_string()).clone();
    assert_eq!(*server.reader(), "reader");
    assert_eq!(server.memory_recent(RecentArgs { limit: None }).limit, 10);
}

#[test]
fn limits_default_to_ten_and_stay_within_the_range() {
    assert_eq!(recent_limit(None), 10);
    assert_eq!(recent_limit(Some(0)), 1);
    assert_eq!(recent_limit(Some(1)), 1);
    assert_eq!(recent_limit(Some(57)), 57);
    assert_eq!(recent_limit(Some(100)), 100);
    assert_eq!(recent_limit(Some(101)), 100);
    assert_eq!(recent_limit(Some(usize::MAX)), 100);
}

#[test]
fn a_query_is_passed_on_with_its_limit() {
    let server = AiMemoryServer::new(());
    let search = server.memory_query(QueryArgs { query: "karpathy".to_string(), limit: Some(5) });
    assert_eq!(search.query, "karpathy");
    assert_eq!(search.limit, 5);
    let search = server.memory_query(QueryArgs { query: String::new(), limit: None });
    assert_eq!(search.query, "");
    assert_eq!(search.limit, 10);
}

#[test]
fn hits_come_back_as_one_text_block() {
    let response = query_response(Ok(vec![Value::from("foo.md")])).unwrap();
    assert_eq!(response.hits.len(), 1);
    let body = object("hits", Value::Array(response.hits));
    let result = ok_json(serde_json::to_string_pretty(&body)).unwrap();
    let text = text_of(&result);
    assert!(text.contains("foo.md"), "expected hit; got {text}");
    assert_eq!(result.is_error, Some(false));
    assert!(result.structured_content.is_none());
}

#[test]
fn counts_come_back_as_one_text_block() {
    let response = status_response(Ok(object("pages_latest", Value::from(1)))).unwrap();
    let body = object("counts", response.counts);
    let result = ok_json(serde_json::to_string_pretty(&body)).unwrap();
    assert!(text_of(&result).contains("\"pages_latest\": 1"));
}

#[test]
fn store_failures_are_internal_errors() {
    let error = match query_response::<u8>(Err("database is locked".to_string())) {
        Ok(_) => panic!("expected an error"),
        Err(error) => error,
    };
    assert_eq!(error.code.0, -32603);
    assert_eq!(error.message, "database is locked");
    assert!(error.data.is_none());
    let error = match status_response::<u8>(Err("gone".to_string())) {
        Ok(_) => panic!("expected an error"),
        Err(error) => error,
    };
    assert_eq!(error.code.0, -32603);
    assert_eq!(error.message, "gone");
}

#[test]
fn serialisation_failures_are_internal_errors() {
    let failure = serde_json::from_str::<Value>("{").unwrap_err();
    let message = failure.to_string();
    let error = ok_json(Err(failure)).unwrap_err();
    assert_eq!(error.code.0, -32603);
    assert_eq!(error.message, message);
    assert!(error.data.is_none());
}

#[test]
fn the_server_describes_itself() {
    let info = AiMemoryServer::new(()).get_info("1.2.3");
    assert_eq!(info.server_info.name, "ai-memory");
    assert_eq!(info.server_info.version, "1.2.3");
    assert_eq!(info.protocol_version, rmcp::model::ProtocolVersion::V_2024_11_05);
    assert_eq!(info.instructions.as_deref(), Some(MEMORY_INSTRUCTIONS));
    assert!(info.capabilities.tools.is_some());
    assert!(info.capabilities.prompts.is_none());
    assert!(info.capabilities.resources.is_none());
    let tools_alone = rmcp::model::ServerCapabilities::builder().enable_tools().build();
    assert_eq!(info.capabilities, tools_alone);
    let implementation = rmcp::model::Implementation::new("ai-memory", "1.2.3");
    assert_eq!(info.server_info, implementation);
    assert_eq!(AiMemoryServer::new("other").get_info("1.2.3"), info);
    assert!(MEMORY_INSTRUCTIONS.contains("All tools are read-only"));
}
