use chappie::gemini::{
    join_lines, model_or_default, request_body, response_texts, Candidate, Content, Part, Response,
    UsageMetadata,
};

fn content(texts: &[&str]) -> Content {
    Content {
        parts: texts.iter().map(|t| Part { text: t.to_string() }).collect(),
        role: "model".to_string(),
    }
}

#[test]
fn gemini_request_and_answer() {
    let body = request_body("hello");
    assert_eq!(body.contents.len(), 1);
    assert_eq!(body.contents[0].role, "user");
    assert_eq!(body.contents[0].parts[0].text, "hello");

    let response = Response {
        candidates: vec![
            Candidate { content: content(&["a", "b"]), finish_reason: None },
            Candidate { content: content(&["c"]), finish_reason: Some("STOP".to_string()) },
        ],
        usage_metadata: UsageMetadata { prompt_token_count: 1, candidates_token_count: 2, total_token_count: 3 },
    };
    let texts = response_texts(&response);
    assert_eq!(texts, vec!["a", "b", "c"]);
    assert_eq!(join_lines(&texts), "a\nb\nc");
    assert_eq!(join_lines(&Vec::new()), "");
}

#[test]
fn gemini_default_model() {
    assert_eq!(model_or_default(None), "gemini-1.5-flash");
    assert_eq!(model_or_default(Some("m")), "m");
}
