//! Prompt and line continuations: the thin capability through which the
//! editing session supplies the displayed prompt text.

use vstd::prelude::*;

verus! {

/// Context a prompt provider may consult when choosing its text.
pub trait PromptContext {

}

impl PromptContext for () {

}

/// Prompt and line continuations.
pub trait Prompt {
    /// Returns the text to be shown as the prompt at the first line, or
    /// the text for the next lines of the input when
    /// `Prompt::has_continuation()`.
    fn get_prompt<C: PromptContext>(&self, ctx: &C) -> String;

    /// Returns `true` when line continuations should be displayed.
    /// `false` by default.
    fn has_continuation(&self) -> bool {
        false
    }
}

impl Prompt for str {
    fn get_prompt<C: PromptContext>(&self, _ctx: &C) -> String {
        self.to_owned()
    }
}

} // verus!
