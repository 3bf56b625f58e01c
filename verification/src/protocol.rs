//! The messages between the daemon and its clients, and the decisions that
//! make them.
use vstd::prelude::*;

use crate::history::HistoryCursor;
use crate::notifications::{MatchContext, MatchedText};
use crate::Id;

verus! {

/// Where to connect.
pub struct Uri {
    pub host: String,
    pub port: u16,
    pub tls: bool,
}

/// The port used when none is given.
pub const DEFAULT_PORT: u16 = 5656;

impl Uri {
    /// The whole text is the host, on the default port, without TLS.
    pub fn from_string(uri: &str) -> (r: Uri)
        ensures
            r.host@ == uri@,
            r.port == DEFAULT_PORT,
            !r.tls,
    {
        Uri { host: uri.to_owned(), port: DEFAULT_PORT, tls: false }
    }
}

/// Hands out request ids in turn, wrapping around.
pub struct RequestIdGenerator {
    next_id: Id,
}

impl RequestIdGenerator {
    pub fn new() -> (r: RequestIdGenerator)
        ensures
            r.peek() == 0,
    {
        RequestIdGenerator { next_id: 0 }
    }

    /// The id that `next` gives next.
    pub closed spec fn peek(&self) -> Id {
        self.next_id
    }

    /// The next id; the one after it is one more (0 after the largest).
    pub fn next(&mut self) -> (r: Id)
        ensures
            r == old(self).peek(),
            final(self).peek() == if r == Id::MAX {
                0
            } else {
                (r + 1) as Id
            },
    {
        let id = self.next_id;
        self.next_id = id.wrapping_add(1);
        id
    }
}

/// What an external UI is told.
pub enum ExternalUINotification {
    NewLine,
    FinishLine,
    ClearPartialLine,
    Text { ansi: String, plain: Option<String> },
    ConnectionStatus { text: String },
    LocalSend { text: String },
}

/// What the daemon tells a client about a connection.
pub enum DaemonNotification {
    Connected,
    Disconnected,
    TriggerMatched { handler_id: Id, context: MatchContext },
    PromptUpdated { group_id: Id, index: usize, content: MatchedText },
    ActivePromptGroupChanged { group_id: Id },
    ExternalUI { data: ExternalUINotification },
}

/// What the daemon answers a request.
pub enum DaemonResponse {
    OkResult,
    ErrorResult { error: String },
    Connecting { connection_id: Id },
    SendResult { sent: bool },
    CompleteResult { words: Vec<String> },
    HistoryResult { entries: Vec<String>, cursor: Option<HistoryCursor> },
    HistoryScrollResult { new_content: String, cursor: Option<HistoryCursor> },
}

/// What a client answers a request of the daemon.
pub enum ClientResponse {
    AliasMatchHandled { replacement: Option<String> },
}

/// What the daemon asks a client.
pub enum ServerRequest {
    HandleAliasMatch { handler_id: Id, context: MatchContext },
}

} // verus!
