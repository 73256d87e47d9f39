//! The embedding service's client-side rules: where requests go and what
//! text is sent. The request itself is made by the caller.

use vstd::prelude::*;
use crate::syntax::trim_end_char_vec;
use crate::syntax::trim_end_char;
use crate::text::{chars_of, concat, string_of};

verus! {

/// A client of an Ollama-style embedding endpoint.
pub struct OllamaEmbedder {
    pub base_url: String,
    pub model: String,
    /// Length of the vectors the model returns; 0 until known.
    pub dimensions: usize,
}

/// Longest text sent, in characters.
pub const MAX_PROMPT_CHARS: usize = 8192;

impl OllamaEmbedder {
    /// A client for `model` at `base_url` (trailing slashes dropped), with
    /// the vector length not yet known.
    pub fn new(base_url: &str, model: &str) -> (r: Self)
        ensures
            r.base_url@ == trim_end_char(base_url@, '/'),
            r.model@ == model@,
            r.dimensions == 0,
    {
        OllamaEmbedder {
            base_url: string_of(&trim_end_char_vec(&chars_of(base_url), '/')),
            model: model.to_owned(),
            dimensions: 0,
        }
    }

    /// A client for `nomic-embed-text` on the local default port.
    pub fn default() -> (r: Self)
        ensures
            r.base_url@ == "http://localhost:11434"@,
            r.model@ == "nomic-embed-text"@,
            r.dimensions == 0,
    {
        proof {
            reveal_strlit("http://localhost:11434");
            reveal_strlit("http://localhost:11434/");
        }
        let r = Self::new("http://localhost:11434", "nomic-embed-text");
        assert(trim_end_char("http://localhost:11434"@, '/') == "http://localhost:11434"@);
        r
    }

    /// The same client with the vector length known.
    pub fn with_dimensions(self, dimensions: usize) -> (r: Self)
        ensures
            r.base_url == self.base_url,
            r.model == self.model,
            r.dimensions == dimensions,
    {
        OllamaEmbedder { base_url: self.base_url, model: self.model, dimensions }
    }

    /// Where embedding requests are posted.
    pub fn endpoint(&self) -> (r: String)
        ensures
            r@ == self.base_url@ + "/api/embeddings"@,
    {
        concat(self.base_url.as_str(), "/api/embeddings")
    }
}

/// The text sent for `text`: a single space for empty text, otherwise at
/// most its first 8192 characters.
pub open spec fn prompt_spec(text: Seq<char>) -> Seq<char> {
    if text.len() == 0 {
        seq![' ']
    } else if text.len() > MAX_PROMPT_CHARS {
        text.take(MAX_PROMPT_CHARS as int)
    } else {
        text
    }
}

pub fn prompt_text(text: &str) -> (r: String)
    ensures
        r@ == prompt_spec(text@),
{
    let v = chars_of(text);
    if v.len() == 0 {
        let mut s: Vec<char> = Vec::new();
        s.push(' ');
        assert(s@ =~= seq![' ']);
        string_of(&s)
    } else if v.len() > MAX_PROMPT_CHARS {
        let mut s: Vec<char> = Vec::new();
        let mut i: usize = 0;
        while i < MAX_PROMPT_CHARS
            invariant
                i <= MAX_PROMPT_CHARS < v@.len(),
                s@ == v@.take(i as int),
            decreases MAX_PROMPT_CHARS - i,
        {
            s.push(v[i]);
            assert(v@.take(i + 1) =~= v@.take(i as int).push(v@[i as int]));
            i = i + 1;
        }
        string_of(&s)
    } else {
        text.to_owned()
    }
}

} // verus!
