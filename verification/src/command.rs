use crate::error::ReadError;
use crate::text::{chars_of, spells};
use vstd::prelude::*;

verus! {

/// The verb at the start of a frame.
#[derive(Debug, PartialEq, Eq, Clone, Copy, Structural)]
pub enum Command {
    Connect,
    Stomp,
    Connected,
    Send,
    Subscribe,
    Unsubscribe,
    Ack,
    Nack,
    Begin,
    Commit,
    Abort,
    Disconnect,
    Message,
    Receipt,
    Error,
}

/// The text of the error for a word that is no command.
pub open spec fn invalid_command_text() -> Seq<char> {
    "invalid command"@
}

/// The command that a word spells exactly, if any.
pub open spec fn command_of(word: Seq<char>) -> Option<Command> {
    if word == "CONNECT"@ {
        Some(Command::Connect)
    } else if word == "STOMP"@ {
        Some(Command::Stomp)
    } else if word == "CONNECTED"@ {
        Some(Command::Connected)
    } else if word == "SEND"@ {
        Some(Command::Send)
    } else if word == "SUBSCRIBE"@ {
        Some(Command::Subscribe)
    } else if word == "UNSUBSCRIBE"@ {
        Some(Command::Unsubscribe)
    } else if word == "ACK"@ {
        Some(Command::Ack)
    } else if word == "NACK"@ {
        Some(Command::Nack)
    } else if word == "BEGIN"@ {
        Some(Command::Begin)
    } else if word == "COMMIT"@ {
        Some(Command::Commit)
    } else if word == "ABORT"@ {
        Some(Command::Abort)
    } else if word == "DISCONNECT"@ {
        Some(Command::Disconnect)
    } else if word == "MESSAGE"@ {
        Some(Command::Message)
    } else if word == "RECEIPT"@ {
        Some(Command::Receipt)
    } else if word == "ERROR"@ {
        Some(Command::Error)
    } else {
        None
    }
}

impl Command {
    /// The canonical spelling of the command.
    pub open spec fn spelling(self) -> Seq<char> {
        match self {
            Command::Connect => "CONNECT"@,
            Command::Stomp => "STOMP"@,
            Command::Connected => "CONNECTED"@,
            Command::Send => "SEND"@,
            Command::Subscribe => "SUBSCRIBE"@,
            Command::Unsubscribe => "UNSUBSCRIBE"@,
            Command::Ack => "ACK"@,
            Command::Nack => "NACK"@,
            Command::Begin => "BEGIN"@,
            Command::Commit => "COMMIT"@,
            Command::Abort => "ABORT"@,
            Command::Disconnect => "DISCONNECT"@,
            Command::Message => "MESSAGE"@,
            Command::Receipt => "RECEIPT"@,
            Command::Error => "ERROR"@,
        }
    }

    /// The canonical spelling of the command.
    pub fn as_str(&self) -> (word: &'static str)
        ensures
            word@ == self.spelling(),
    {
        match self {
            Command::Connect => "CONNECT",
            Command::Stomp => "STOMP",
            Command::Connected => "CONNECTED",
            Command::Send => "SEND",
            Command::Subscribe => "SUBSCRIBE",
            Command::Unsubscribe => "UNSUBSCRIBE",
            Command::Ack => "ACK",
            Command::Nack => "NACK",
            Command::Begin => "BEGIN",
            Command::Commit => "COMMIT",
            Command::Abort => "ABORT",
            Command::Disconnect => "DISCONNECT",
            Command::Message => "MESSAGE",
            Command::Receipt => "RECEIPT",
            Command::Error => "ERROR",
        }
    }

    /// The canonical spelling of the command, as an owned string.
    pub fn to_string(&self) -> (word: String)
        ensures
            word@ == self.spelling(),
    {
        self.as_str().to_owned()
    }

    /// The command that `chars[from..to]` spells exactly, if any.
    pub fn from_chars(chars: &Vec<char>, from: usize, to: usize) -> (found: Option<Command>)
        requires
            from <= to <= chars@.len(),
        ensures
            found == command_of(chars@.subrange(from as int, to as int)),
    {
        if spells(chars, from, to, "CONNECT") {
            Some(Command::Connect)
        } else if spells(chars, from, to, "STOMP") {
            Some(Command::Stomp)
        } else if spells(chars, from, to, "CONNECTED") {
            Some(Command::Connected)
        } else if spells(chars, from, to, "SEND") {
            Some(Command::Send)
        } else if spells(chars, from, to, "SUBSCRIBE") {
            Some(Command::Subscribe)
        } else if spells(chars, from, to, "UNSUBSCRIBE") {
            Some(Command::Unsubscribe)
        } else if spells(chars, from, to, "ACK") {
            Some(Command::Ack)
        } else if spells(chars, from, to, "NACK") {
            Some(Command::Nack)
        } else if spells(chars, from, to, "BEGIN") {
            Some(Command::Begin)
        } else if spells(chars, from, to, "COMMIT") {
            Some(Command::Commit)
        } else if spells(chars, from, to, "ABORT") {
            Some(Command::Abort)
        } else if spells(chars, from, to, "DISCONNECT") {
            Some(Command::Disconnect)
        } else if spells(chars, from, to, "MESSAGE") {
            Some(Command::Message)
        } else if spells(chars, from, to, "RECEIPT") {
            Some(Command::Receipt)
        } else if spells(chars, from, to, "ERROR") {
            Some(Command::Error)
        } else {
            None
        }
    }

    /// Parses a command: the word must be the exact spelling of one of the
    /// commands, with nothing before or behind it.
    pub fn from_str(s: &str) -> (parsed: Result<Command, ReadError>)
        ensures
            match parsed {
                Ok(c) => command_of(s@) == Some(c),
                Err(e) => command_of(s@) is None && e.is_format(invalid_command_text()),
            },
    {
        let chars = chars_of(s);
        assert(chars@.subrange(0, chars@.len() as int) == chars@);
        match Command::from_chars(&chars, 0, chars.len()) {
            Some(c) => Ok(c),
            None => Err(ReadError::format("invalid command")),
        }
    }
}

/// Every command is the one that its canonical spelling parses to.
pub proof fn lemma_command_of_spelling(c: Command)
    ensures
        command_of(c.spelling()) == Some(c),
{
    reveal_strlit("CONNECT");
    reveal_strlit("STOMP");
    reveal_strlit("CONNECTED");
    reveal_strlit("SEND");
    reveal_strlit("SUBSCRIBE");
    reveal_strlit("UNSUBSCRIBE");
    reveal_strlit("ACK");
    reveal_strlit("NACK");
    reveal_strlit("BEGIN");
    reveal_strlit("COMMIT");
    reveal_strlit("ABORT");
    reveal_strlit("DISCONNECT");
    reveal_strlit("MESSAGE");
    reveal_strlit("RECEIPT");
    reveal_strlit("ERROR");
    assert("CONNECT"@.len() == 7);
    assert("STOMP"@.len() == 5);
    assert("CONNECTED"@.len() == 9);
    assert("SEND"@.len() == 4);
    assert("SUBSCRIBE"@.len() == 9);
    assert("UNSUBSCRIBE"@.len() == 11);
    assert("ACK"@.len() == 3);
    assert("NACK"@.len() == 4);
    assert("BEGIN"@.len() == 5);
    assert("COMMIT"@.len() == 6);
    assert("ABORT"@.len() == 5);
    assert("DISCONNECT"@.len() == 10);
    assert("MESSAGE"@.len() == 7);
    assert("RECEIPT"@.len() == 7);
    assert("ERROR"@.len() == 5);
    assert("CONNECT"@[0] == 'C' && "STOMP"@[0] == 'S' && "CONNECTED"@[0] == 'C' && "SEND"@[0]
        == 'S' && "SUBSCRIBE"@[0] == 'S' && "UNSUBSCRIBE"@[0] == 'U' && "ACK"@[0] == 'A'
        && "NACK"@[0] == 'N' && "BEGIN"@[0] == 'B' && "COMMIT"@[0] == 'C' && "ABORT"@[0] == 'A'
        && "DISCONNECT"@[0] == 'D' && "MESSAGE"@[0] == 'M' && "RECEIPT"@[0] == 'R' && "ERROR"@[0]
        == 'E');
    assert("CONNECT"@[1] == 'O' && "MESSAGE"@[1] == 'E' && "RECEIPT"@[1] == 'E' && "STOMP"@[1]
        == 'T' && "BEGIN"@[1] == 'E' && "ABORT"@[1] == 'B' && "ERROR"@[1] == 'R' && "SEND"@[1]
        == 'E' && "NACK"@[1] == 'A' && "CONNECTED"@[1] == 'O' && "SUBSCRIBE"@[1] == 'U');
    assert("MESSAGE"@[2] == 'S' && "RECEIPT"@[2] == 'C');
}

/// The canonical spelling of a command is made of 3 to 11 capital
/// letters.
pub proof fn lemma_spelling_is_capitals(c: Command)
    ensures
        3 <= c.spelling().len() <= 11,
        forall|i: int| 0 <= i < c.spelling().len() ==> 'A' <= #[trigger] c.spelling()[i] <= 'Z',
{
    reveal_strlit("CONNECT");
    reveal_strlit("STOMP");
    reveal_strlit("CONNECTED");
    reveal_strlit("SEND");
    reveal_strlit("SUBSCRIBE");
    reveal_strlit("UNSUBSCRIBE");
    reveal_strlit("ACK");
    reveal_strlit("NACK");
    reveal_strlit("BEGIN");
    reveal_strlit("COMMIT");
    reveal_strlit("ABORT");
    reveal_strlit("DISCONNECT");
    reveal_strlit("MESSAGE");
    reveal_strlit("RECEIPT");
    reveal_strlit("ERROR");
    let s = c.spelling();
    assert forall|i: int| 0 <= i < s.len() implies 'A' <= #[trigger] s[i] <= 'Z' by {
        if i == 0 {
        } else if i == 1 {
        } else if i == 2 {
        } else if i == 3 {
        } else if i == 4 {
        } else if i == 5 {
        } else if i == 6 {
        } else if i == 7 {
        } else if i == 8 {
        } else if i == 9 {
        } else if i == 10 {
        }
    }
}

} // verus!
