//! Building conversations from the tokens of a scene script.
use crate::script::{dialog_parser, dialogs_view, parse, tokens_view, Dialog, Token};
use vstd::prelude::*;

verus! {

/// Builds the conversations of a scene script.
pub struct ConversationBuilder;

impl ConversationBuilder {
    /// Groups script tokens into dialogs, for the caller to inspect; `None`
    /// where the tokens are not a sequence of complete blocks.
    pub fn new<'a>(tokens: Vec<Token<'a>>) -> (r: Option<Vec<Dialog<'a>>>)
        ensures
            match r {
                Some(v) => parse(tokens_view(tokens@)) == Some(dialogs_view(v@)),
                None => parse(tokens_view(tokens@)) is None,
            },
    {
        dialog_parser(tokens.as_slice())
    }
}

} // verus!
