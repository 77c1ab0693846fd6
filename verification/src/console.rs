//! The commands of the terminal chat.

use vstd::prelude::*;
use vstd::string::*;

use crate::text;

verus! {

/// What a line asks for.
pub enum Command {
    /// Nothing: the line is blank.
    Skip,
    /// To end the chat.
    Exit,
    /// To forget the conversation.
    Reset,
    /// To reply to this message.
    Chat(String),
}

/// What a line asks for; white space around it does not count.
pub fn parse(line: &str) -> (r: Command)
    ensures
        ({
            let s = text::trimmed(line@);
            match r {
                Command::Skip => s.len() == 0,
                Command::Exit => s.len() > 0 && (s == "/exit"@ || s == "/quit"@),
                Command::Reset => s.len() > 0 && s != "/exit"@ && s != "/quit"@ && s == "/reset"@,
                Command::Chat(message) => {
                    &&& s.len() > 0
                    &&& s != "/exit"@ && s != "/quit"@ && s != "/reset"@
                    &&& message@ == s
                },
            }
        }),
{
    let trimmed: &str = text::trim(line);
    if trimmed.unicode_len() == 0 {
        return Command::Skip;
    }
    if text::same(trimmed, "/exit") || text::same(trimmed, "/quit") {
        return Command::Exit;
    }
    if text::same(trimmed, "/reset") {
        return Command::Reset;
    }
    Command::Chat(trimmed.to_owned())
}

} // verus!
