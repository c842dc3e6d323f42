use vstd::prelude::*;

verus! {

/// A language-model client: built from an API key and a model name, and known by a name.
/// Sending a request is asynchronous and lives with the program.
pub trait LlmApi {
    fn new(api_key: &str, model: &str) -> Self where Self: Sized;

    fn name() -> &'static str where Self: Sized;
}

/// The client that answers nothing.
pub struct EmptyLLM {}

impl LlmApi for EmptyLLM {
    fn new(api_key: &str, model: &str) -> EmptyLLM {
        EmptyLLM {}
    }

    fn name() -> (r: &'static str)
        ensures
            r@ == "empty"@,
    {
        "empty"
    }
}

impl EmptyLLM {
    /// Its answer to any message.
    pub fn answer(&self, message: &str) -> (r: String)
        ensures
            r@ == "empty llm no answer"@,
    {
        String::from_str("empty llm no answer")
    }
}

} // verus!
