use vstd::prelude::*;
use crate::codec::ChatMessage;

verus! {

/// Unicode's White_Space property: the characters that `char::is_whitespace`
/// accepts.
pub open spec fn is_white_space(c: char) -> bool {
    let v = c as u32;
    (0x09 <= v && v <= 0x0d) || v == 0x20 || v == 0x85 || v == 0xa0 || v == 0x1680 || (0x2000
        <= v && v <= 0x200a) || v == 0x2028 || v == 0x2029 || v == 0x202f || v == 0x205f || v
        == 0x3000
}

/// `s` less its leading white space.
pub open spec fn trim_start(s: Seq<char>) -> Seq<char>
    decreases s.len(),
{
    if s.len() > 0 && is_white_space(s[0]) {
        trim_start(s.drop_first())
    } else {
        s
    }
}

/// `s` less its trailing white space.
pub open spec fn trim_end(s: Seq<char>) -> Seq<char>
    decreases s.len(),
{
    if s.len() > 0 && is_white_space(s[s.len() - 1]) {
        trim_end(s.drop_last())
    } else {
        s
    }
}

/// `s` less its leading and trailing white space.
pub open spec fn trim(s: Seq<char>) -> Seq<char> {
    trim_end(trim_start(s))
}

/// Relies on str::trim: the slice of `s` with leading and trailing white
/// space removed, white space being Unicode's White_Space property.
#[verifier::external_body]
fn trim_text(s: &str) -> (r: &str)
    ensures
        r@ == trim(s@),
{
    s.trim()
}

/// The name under which the server itself speaks.
pub open spec fn server_name() -> Seq<char> {
    seq!['S', 'e', 'r', 'v', 'e', 'r']
}

/// ` joined the chat`
pub open spec fn joined_note() -> Seq<char> {
    seq![' ', 'j', 'o', 'i', 'n', 'e', 'd', ' ', 't', 'h', 'e', ' ', 'c', 'h', 'a', 't']
}

/// The server's note to a connection that has just announced `username`.
pub fn welcome_message(username: &str) -> (r: ChatMessage)
    ensures
        r.username@ == server_name(),
        r.content@ == username@ + joined_note(),
{
    let mut content = String::from_str(username);
    content.append(" joined the chat");
    let name = String::from_str("Server");
    proof {
        reveal_strlit(" joined the chat");
        reveal_strlit("Server");
        assert(name@ =~= server_name());
        assert(content@ =~= username@ + joined_note());
    }
    ChatMessage::new(name, content)
}

/// The message that one inbound line of `username` becomes: the line,
/// trimmed, as its content.
pub fn message_from_line(username: &str, line: &str) -> (r: ChatMessage)
    ensures
        r.username@ == username@,
        r.content@ == trim(line@),
{
    ChatMessage::new(String::from_str(username), String::from_str(trim_text(line)))
}

/// Where a connection stands.
pub enum Phase {
    /// Accepted; its first line, the username, has not come yet.
    Joining,
    /// Announced under `username` and registered for broadcasts.
    Active { username: String },
    /// Its inbound stream has ended or failed.
    Closed,
}

/// What the inbound half of a connection yields.
pub enum Inbound {
    /// One line, as read, terminator included.
    Line(String),
    /// The peer closed the stream, or reading from it failed.
    End,
}

/// What the server does in answer to one inbound event.
pub enum Step {
    /// Write this note to the joining connection alone, then register its
    /// outbound half.
    Welcome(ChatMessage),
    /// Deliver this message to every registered connection.
    Broadcast(ChatMessage),
    /// Remove this connection from the registry; it gets no further writes.
    Leave,
    /// Drop the connection, which never joined.
    Abandon,
    /// Nothing: the connection is already closed.
    Ignore,
}

/// The server's side of one connection: the join handshake, then one
/// broadcast per inbound line, until the stream ends.
pub struct Connection {
    pub phase: Phase,
}

impl Connection {
    pub fn new() -> (r: Connection)
        ensures
            r.phase is Joining,
    {
        Connection { phase: Phase::Joining }
    }

    /// Whether the connection has joined and not yet closed.
    pub fn is_active(&self) -> (r: bool)
        ensures
            r == self.phase is Active,
    {
        match self.phase {
            Phase::Active { .. } => true,
            _ => false,
        }
    }

    /// Advances the connection by one inbound event and says what to do.
    pub fn on_inbound(&mut self, event: Inbound) -> (r: Step)
        ensures
            match (old(self).phase, event) {
                (Phase::Joining, Inbound::Line(line)) => {
                    &&& final(self).phase is Active
                    &&& final(self).phase->username@ == trim(line@)
                    &&& r is Welcome
                    &&& r->Welcome_0.username@ == server_name()
                    &&& r->Welcome_0.content@ == trim(line@) + joined_note()
                },
                (Phase::Joining, Inbound::End) => final(self).phase is Closed && r is Abandon,
                (Phase::Active { username }, Inbound::Line(line)) => {
                    &&& final(self).phase is Active
                    &&& final(self).phase->username@ == username@
                    &&& r is Broadcast
                    &&& r->Broadcast_0.username@ == username@
                    &&& r->Broadcast_0.content@ == trim(line@)
                },
                (Phase::Active { .. }, Inbound::End) => final(self).phase is Closed && r is Leave,
                (Phase::Closed, _) => final(self).phase is Closed && r is Ignore,
            },
    {
        match event {
            Inbound::Line(line) => match &self.phase {
                Phase::Joining => {
                    let username = String::from_str(trim_text(line.as_str()));
                    let note = welcome_message(username.as_str());
                    self.phase = Phase::Active { username };
                    Step::Welcome(note)
                },
                Phase::Active { username } => {
                    Step::Broadcast(message_from_line(username.as_str(), line.as_str()))
                },
                Phase::Closed => Step::Ignore,
            },
            Inbound::End => match &self.phase {
                Phase::Joining => {
                    self.phase = Phase::Closed;
                    Step::Abandon
                },
                Phase::Active { .. } => {
                    self.phase = Phase::Closed;
                    Step::Leave
                },
                Phase::Closed => Step::Ignore,
            },
        }
    }
}

} // verus!
