use chappie::llmapi::{EmptyLLM, LlmApi};

#[test]
fn test_llm() {}

#[test]
fn empty_llm_name_and_answer() {
    assert_eq!(EmptyLLM::name(), "empty");
    let llm = EmptyLLM::new("key", "model");
    assert_eq!(llm.answer("hi"), "empty llm no answer");
}
