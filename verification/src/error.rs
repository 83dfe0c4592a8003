//! Error types shared by the transport layers.
use vstd::prelude::*;

verus! {

/// A protocol error, carrying its message.
#[derive(Debug, Clone)]
pub struct ProtocolError(pub String);

impl ProtocolError {
    /// A protocol error whose message is the text that `value` displays.
    pub fn new<T: std::fmt::Display>(value: T) -> (e: Self)
        ensures
            vstd::string::to_string_from_display_ensures::<T>(&value, e.0),
    {
        ProtocolError(value.to_string())
    }

    /// The error as it is displayed: `Protocol error: ` and its message.
    pub fn to_string(&self) -> (s: String)
        ensures
            s@ == "Protocol error: "@ + self.0@,
    {
        String::from_str("Protocol error: ").concat(self.0.as_str())
    }

    /// A protocol error whose message is `message`.
    pub fn from_message(message: &str) -> (e: Self)
        ensures
            e.0@ == message@,
    {
        ProtocolError(String::from_str(message))
    }
}

} // verus!
