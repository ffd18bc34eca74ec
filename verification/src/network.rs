//! Chat messages and the limit on what one may carry.
use vstd::prelude::*;
use vstd::utf8::encode_utf8;
use vstd::string::StringExecFns;

verus! {

/// The largest payload, in UTF-8 bytes, that a message may carry.
pub const MAX_MESSAGE_BYTES: u8 = 16;

/// Whether a message carries chat data or asks the network side to stop.
#[derive(Clone, Copy, Debug, PartialEq, Eq, Structural)]
pub enum MessageOptions {
    Shutdown,
    Plain,
}

/// Declares `std::io::Error`, the error type of [`Message::new`].
#[verifier::external_type_specification]
#[verifier::external_body]
pub struct ExIoError(std::io::Error);

/// A chat message between two peers, each named by its address.
#[derive(Debug)]
pub struct Message {
    pub data: String,
    pub sender: String,
    pub recipient: String,
    pub options: MessageOptions,
}

/// Number of bytes that the UTF-8 encoding of `s` takes.
pub open spec fn utf8_len(s: Seq<char>) -> nat {
    encode_utf8(s).len()
}

impl Message {
    /// A data message from `sender` to `recipient`.
    ///
    /// A payload longer than [`MAX_MESSAGE_BYTES`] bytes is not a message at
    /// all: such a call is outside the contract.
    pub fn new(data: String, recipient: String, sender: String) -> (res: Result<Message, std::io::Error>)
        requires
            utf8_len(data@) <= MAX_MESSAGE_BYTES,
        ensures
            res is Ok,
            res matches Ok(m) && m.data@ == data@ && m.sender@ == sender@
                && m.recipient@ == recipient@ && m.options == MessageOptions::Plain,
    {
        Ok(Message { data, sender, recipient, options: MessageOptions::Plain })
    }

    /// The message that tells the network side to shut down: empty text and
    /// addresses.
    pub fn shutdown() -> (m: Message)
        ensures
            m.data@ == Seq::<char>::empty(),
            m.sender@ == Seq::<char>::empty(),
            m.recipient@ == Seq::<char>::empty(),
            m.options == MessageOptions::Shutdown,
    {
        Message {
            data: String::new(),
            sender: String::new(),
            recipient: String::new(),
            options: MessageOptions::Shutdown,
        }
    }
}

impl Message {
    /// How the console shows the message.
    pub fn describe(&self) -> (s: String)
        ensures
            s@ == "Message from: "@ + self.sender@ + "    To: "@ + self.recipient@ + "    Contents: "@
                + self.data@,
    {
        let mut s = String::new();
        s.append("Message from: ");
        s.append(self.sender.as_str());
        s.append("    To: ");
        s.append(self.recipient.as_str());
        s.append("    Contents: ");
        s.append(self.data.as_str());
        s
    }
}

impl Clone for Message {
    fn clone(&self) -> (res: Self)
        ensures
            res == *self,
    {
        Message {
            data: self.data.clone(),
            sender: self.sender.clone(),
            recipient: self.recipient.clone(),
            options: self.options,
        }
    }
}

} // verus!
