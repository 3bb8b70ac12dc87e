//! The calculator's visible state — an input text and an output text — and
//! the evaluation step the UI shell triggers on it.

use crate::parser::tokens::{is_space_char, lemma_whitespace_insensitive, spec_tokenize, TokenStream};
use crate::parser::{expression, sp_evaluate, spec_message};
use crate::value::spec_render_rat;
use vstd::prelude::*;

verus! {

/// What one evaluation leaves in the output field: input that does not
/// tokenize, or holds no token at all, leaves the previous output unchanged
/// (so an empty input field never flashes an error); anything else replaces
/// it with the rendered value or the error's message.
pub open spec fn spec_compute_output(input: Seq<char>, prev: Seq<char>) -> Seq<char> {
    match spec_tokenize(input) {
        None => prev,
        Some(toks) => if toks.len() == 0 {
            prev
        } else {
            match sp_evaluate(toks) {
                Ok(v) => spec_render_rat(v),
                Err(e) => spec_message(e),
            }
        },
    }
}

/// Whitespace insensitivity: two inputs that tokenize to the same token
/// sequence evaluate to the same output — the result depends only on the
/// tokens, never on the spacing of the raw text.
pub proof fn lemma_eval_depends_on_tokens(in1: Seq<char>, in2: Seq<char>, prev: Seq<char>)
    requires
        spec_tokenize(in1) == spec_tokenize(in2),
    ensures
        spec_compute_output(in1, prev) == spec_compute_output(in2, prev),
{
}

/// Whitespace insensitivity, on the whole evaluation: wrapping the input in
/// any amount of whitespace on either side leaves the output unchanged.
pub proof fn lemma_whitespace_insensitive_output(
    ws1: Seq<char>,
    t: Seq<char>,
    ws2: Seq<char>,
    prev: Seq<char>,
)
    requires
        forall|i: int| 0 <= i < ws1.len() ==> is_space_char(#[trigger] ws1[i]),
        forall|i: int| 0 <= i < ws2.len() ==> is_space_char(#[trigger] ws2[i]),
    ensures
        spec_compute_output(ws1 + t + ws2, prev) == spec_compute_output(t, prev),
{
    lemma_whitespace_insensitive(ws1, t, ws2);
}

/// Empty input holds no token, so an evaluation of it is a no-op: the
/// previous output stays, and nothing fails.
pub proof fn lemma_empty_input(prev: Seq<char>)
    ensures
        spec_tokenize(Seq::<char>::empty()) == Some(Seq::<crate::parser::tokens::SpecToken>::empty()),
        spec_compute_output(Seq::<char>::empty(), prev) == prev,
{
}

/// The application state the UI shell owns: the expression being typed and
/// the text shown as the result.
pub struct TemplateApp {
    pub input: String,
    pub output: String,
}

impl TemplateApp {
    /// Evaluate the current input once: tokenize it, run the
    /// parser/evaluator on the fresh stream, and replace the output with the
    /// rendered value or error message. Input with nothing to evaluate
    /// leaves the output untouched.
    pub fn compute(&mut self)
        ensures
            final(self).input@ == old(self).input@,
            final(self).output@ == spec_compute_output(old(self).input@, old(self).output@),
    {
        let mut ts = match TokenStream::new(self.input.clone()) {
            Some(v) => v,
            None => {
                return;
            },
        };
        match expression(&mut ts) {
            Ok(ans) => self.output = ans.render(),
            Err(e) => self.output = e.message(),
        }
    }
}

impl Default for TemplateApp {
    /// Fresh state: empty input, placeholder output.
    fn default() -> (app: TemplateApp)
        ensures
            app.input@ == Seq::<char>::empty(),
            app.output@ == "output is empty"@,
    {
        TemplateApp { input: String::new(), output: "output is empty".to_owned() }
    }
}

} // verus!
