use vstd::prelude::*;

verus! {

/// One message on a container's log stream, as the streaming task hands it
/// to its consumer: a line of content, an error that aborts the stream, or
/// the end of the stream.
pub enum LogMessage {
    /// Log content from the container.
    Content(String),
    /// An error occurred while streaming logs.
    Error(String),
    /// The stream has ended.
    End,
}

impl LogMessage {
    /// The text a consumer renders for the message.
    pub fn event_text(self) -> (r: String)
        ensures
            match self {
                LogMessage::Content(content) => r@ == content@,
                LogMessage::Error(e) => r@ == "ERROR: "@ + e@,
                LogMessage::End => r@ == "Log stream ended"@,
            },
    {
        match self {
            LogMessage::Content(content) => content,
            LogMessage::Error(e) => String::from_str("ERROR: ").concat(e.as_str()),
            LogMessage::End => String::from_str("Log stream ended"),
        }
    }
}

} // verus!
