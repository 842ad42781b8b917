//! The decisions of the interactive chat session: what a typed line asks for.
use vstd::prelude::*;

use crate::text::{
    chars_to_string, eq_ignore_ascii_case, equals_ignore_ascii_case, string_chars, trim, trim_chars,
};

verus! {

/// What one line typed in the chat session asks for.
#[derive(Debug, PartialEq, Eq)]
pub enum ChatInput {
    /// `exit` or `quit`, in any ASCII case: end the session.
    Quit,
    /// A blank line: ask again.
    Skip,
    /// A question, without its surrounding white space.
    Ask(String),
}

/// The line asks to end the session.
pub open spec fn is_quit_command(q: Seq<char>) -> bool {
    eq_ignore_ascii_case(q, "exit"@) || eq_ignore_ascii_case(q, "quit"@)
}

/// Reads one line of the chat session: the trimmed line is a quit command,
/// blank, or a question.
pub fn interpret_chat_line(line: &str) -> (r: ChatInput)
    ensures
        is_quit_command(trim(line@)) ==> r == ChatInput::Quit,
        !is_quit_command(trim(line@)) && trim(line@).len() == 0 ==> r == ChatInput::Skip,
        !is_quit_command(trim(line@)) && trim(line@).len() > 0 ==> (r matches ChatInput::Ask(q)
            && q@ == trim(line@)),
{
    let chars = string_chars(line);
    let question = trim_chars(&chars);
    let exit = string_chars("exit");
    let quit = string_chars("quit");
    if equals_ignore_ascii_case(question.as_slice(), exit.as_slice())
        || equals_ignore_ascii_case(question.as_slice(), quit.as_slice()) {
        return ChatInput::Quit;
    }
    if question.len() == 0 {
        return ChatInput::Skip;
    }
    ChatInput::Ask(chars_to_string(question.as_slice()))
}

} // verus!
