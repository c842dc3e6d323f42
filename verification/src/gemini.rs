use vstd::prelude::*;
use crate::text_util::{push_char, push_str};

verus! {

/// A piece of text in a message.
#[derive(Debug)]
pub struct Part {
    pub text: String,
}

/// A message: its parts and who sent it.
#[derive(Debug)]
pub struct Content {
    pub parts: Vec<Part>,
    pub role: String,
}

/// A safety rating of an answer.
#[derive(Debug)]
pub struct SafetyRating {
    pub category: String,
    pub probability: String,
}

/// One proposed answer.
#[derive(Debug)]
pub struct Candidate {
    pub content: Content,
    pub finish_reason: Option<String>,
}

/// The tokens a request used.
#[derive(Debug)]
pub struct UsageMetadata {
    pub prompt_token_count: usize,
    pub candidates_token_count: usize,
    pub total_token_count: usize,
}

/// The answer to a request.
#[derive(Debug)]
pub struct Response {
    pub candidates: Vec<Candidate>,
    pub usage_metadata: UsageMetadata,
}

/// A request: the messages to answer.
#[derive(Debug)]
pub struct RequestBody {
    pub contents: Vec<Content>,
}

/// The model asked when none is named.
pub open spec fn default_model() -> Seq<char> {
    "gemini-1.5-flash"@
}

/// The model to ask: the one named, else the default.
pub fn model_or_default(model: Option<&str>) -> (r: String)
    ensures
        r@ == match model {
            Some(m) => m@,
            None => default_model(),
        },
{
    match model {
        Some(m) => m.to_string(),
        None => String::from_str("gemini-1.5-flash"),
    }
}

/// The request for one prompt: a single user message holding it.
pub fn request_body(prompt: &str) -> (r: RequestBody)
    ensures
        r.contents@.len() == 1,
        r.contents@[0].parts@.len() == 1,
        r.contents@[0].parts@[0].text@ == prompt@,
        r.contents@[0].role@ == "user"@,
{
    let mut parts: Vec<Part> = Vec::new();
    parts.push(Part { text: prompt.to_string() });
    let mut contents: Vec<Content> = Vec::new();
    contents.push(Content { parts, role: String::from_str("user") });
    RequestBody { contents }
}

/// The texts of the parts of the first `k` candidates, in order.
pub open spec fn texts_upto(cands: Seq<Candidate>, k: int) -> Seq<Seq<char>>
    decreases k,
{
    if k <= 0 {
        Seq::empty()
    } else {
        texts_upto(cands, k - 1) + cands[k - 1].content.parts@.map_values(|p: Part| p.text@)
    }
}

/// The texts of all parts of all candidates, in order.
pub fn response_texts(response: &Response) -> (r: Vec<String>)
    ensures
        r@.map_values(|s: String| s@) == texts_upto(response.candidates@, response.candidates@.len() as int),
{
    let mut out: Vec<String> = Vec::new();
    let mut i: usize = 0;
    while i < response.candidates.len()
        invariant
            i <= response.candidates@.len(),
            out@.map_values(|s: String| s@) == texts_upto(response.candidates@, i as int),
        decreases response.candidates@.len() - i,
    {
        let parts = &response.candidates[i].content.parts;
        let ghost before = out@.map_values(|s: String| s@);
        let mut j: usize = 0;
        while j < parts.len()
            invariant
                j <= parts@.len(),
                *parts == response.candidates@[i as int].content.parts,
                out@.map_values(|s: String| s@) == before + parts@.map_values(|p: Part| p.text@).take(j as int),
            decreases parts@.len() - j,
        {
            let ghost prev = out@;
            let t = parts[j].text.as_str().to_string();
            out.push(t);
            j = j + 1;
            proof {
                assert(out@.map_values(|s: String| s@) =~= prev.map_values(|s: String| s@).push(parts@[j - 1].text@));
                assert(parts@.map_values(|p: Part| p.text@).take(j as int) =~= parts@.map_values(|p: Part| p.text@).take(
                    j - 1,
                ).push(parts@[j - 1].text@));
            }
        }
        proof {
            assert(parts@.map_values(|p: Part| p.text@).take(parts@.len() as int) =~= parts@.map_values(|p: Part| p.text@));
        }
        i = i + 1;
    }
    out
}

/// Texts joined with newlines between them.
pub open spec fn joined_lines(s: Seq<Seq<char>>) -> Seq<char>
    decreases s.len(),
{
    if s.len() == 0 {
        Seq::empty()
    } else if s.len() == 1 {
        s[0]
    } else {
        joined_lines(s.drop_last()) + seq!['\n'] + s.last()
    }
}

/// The texts joined with newlines between them.
pub fn join_lines(texts: &Vec<String>) -> (r: String)
    ensures
        r@ == joined_lines(texts@.map_values(|s: String| s@)),
{
    let ghost v = texts@.map_values(|s: String| s@);
    let mut out = String::new();
    let mut i: usize = 0;
    while i < texts.len()
        invariant
            v == texts@.map_values(|s: String| s@),
            i <= texts@.len(),
            out@ == joined_lines(v.take(i as int)),
        decreases texts@.len() - i,
    {
        if i > 0 {
            push_char(&mut out, '\n');
        }
        push_str(&mut out, texts[i].as_str());
        proof {
            assert(v.take(i + 1).drop_last() =~= v.take(i as int));
            if i == 0 {
                assert(v.take(1) =~= seq![v[0]]);
            }
        }
        i = i + 1;
    }
    proof {
        assert(v.take(texts@.len() as int) =~= v);
    }
    out
}

} // verus!
