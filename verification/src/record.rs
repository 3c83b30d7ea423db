//! Classification of one log line.
//!
//! Each line of a session log is a JSON document with a `type` field.  The
//! library distinguishes conversational turns (`user`, `assistant`), control
//! summaries (`summary`), and synthetic queue notifications
//! (`queue-operation`); every other well-formed line is consumed without
//! being emitted, and a line that does not parse is treated as a partial
//! write still in flight.

use vstd::prelude::*;
use crate::json::{json_get_str, json_get_str2, json_is_valid, json_str_field, json_str_field2,
    json_wf};
use crate::text::{spec_task_id, str_eq};

verus! {

/// What a complete log line is, as far as the reader cares.
#[derive(Clone, Copy, Debug, PartialEq, Eq, Structural)]
pub enum LineKind {
    /// A conversational turn written by the user.
    User,
    /// A conversational turn written by the assistant.
    Assistant,
    /// A control line carrying a compaction summary.
    Summary,
    /// A synthetic queue notification, possibly rewritten into a user turn.
    QueueOp,
    /// Some other well-formed line; consumed but never emitted.
    Other,
    /// Not a well-formed record: either invalid JSON or no string `type`.
    Broken,
}

/// The kind of the line `l`, as the JSON lookups see it.
pub open spec fn spec_line_kind(l: Seq<u8>) -> LineKind {
    if !json_wf(l) {
        LineKind::Broken
    } else {
        match json_str_field(l, "type"@) {
            Option::None => LineKind::Broken,
            Option::Some(t) => if t == "user"@ {
                LineKind::User
            } else if t == "assistant"@ {
                LineKind::Assistant
            } else if t == "summary"@ {
                LineKind::Summary
            } else if t == "queue-operation"@ {
                LineKind::QueueOp
            } else {
                LineKind::Other
            },
        }
    }
}

/// Classify one complete line.
pub fn classify_line(l: &[u8]) -> (k: LineKind)
    ensures
        k == spec_line_kind(l@),
{
    if !json_is_valid(l) {
        return LineKind::Broken;
    }
    match json_get_str(l, "type") {
        Option::None => LineKind::Broken,
        Option::Some(t) => {
            if str_eq(t.as_str(), "user") {
                LineKind::User
            } else if str_eq(t.as_str(), "assistant") {
                LineKind::Assistant
            } else if str_eq(t.as_str(), "summary") {
                LineKind::Summary
            } else if str_eq(t.as_str(), "queue-operation") {
                LineKind::QueueOp
            } else {
                LineKind::Other
            }
        },
    }
}

/// The plain-text body of a line's message, when the message content is a
/// single string rather than a block list.
pub open spec fn line_text(l: Seq<u8>) -> Option<Seq<char>> {
    json_str_field2(l, "message"@, "content"@)
}

/// Read the plain-text body of a line's message.
pub fn read_line_text(l: &[u8]) -> (r: Option<String>)
    ensures
        r is Some <==> line_text(l@) is Some,
        r matches Some(t) ==> line_text(l@) == Some(t@),
{
    json_get_str2(l, "message", "content")
}

/// The raw content of a queue-operation line.
pub open spec fn queue_content(l: Seq<u8>) -> Option<Seq<char>> {
    json_str_field(l, "content"@)
}

/// Read the raw content of a queue-operation line.
pub fn read_queue_content(l: &[u8]) -> (r: Option<String>)
    ensures
        r is Some <==> queue_content(l@) is Some,
        r matches Some(t) ==> queue_content(l@) == Some(t@),
{
    json_get_str(l, "content")
}

/// The task identifier carried by a user line, when its message body embeds
/// a task notification.
pub open spec fn user_task_id(l: Seq<u8>) -> Option<Seq<char>> {
    match line_text(l) {
        Option::None => Option::None,
        Option::Some(t) => spec_task_id(t),
    }
}

} // verus!
