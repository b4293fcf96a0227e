//! The chat service that the drive stores its chunks in.
use vstd::prelude::*;

verus! {

/// Why the chat service refused or failed a request.
#[derive(Debug, PartialEq, Eq)]
pub enum BridgeError {
    /// The data was larger than the largest attachment the service takes.
    TooLarge,
    /// The message that was asked for carries no attachment.
    NoAttachment,
    /// The service failed; the text says how.
    Service(String),
}

/// The messages of a chat service, by id.
pub type Messages = Map<u64, Seq<u8>>;

/// A chat service that keeps messages of bytes, each under an id.
///
/// The service is described by the messages that it holds: a message, once
/// sent, stays under its id with the bytes it was sent with. Whether a request
/// succeeds is the service's own affair (a network may fail), unless the
/// service is available, in which case every request succeeds.
pub trait ChatServiceBridge: Sized {
    /// The chunk size of each file uploaded (in bytes). A smaller value
    /// handles small reads/writes faster, a larger one larger reads/writes.
    const MAX_FILE_SIZE: usize;

    /// The messages that the service holds, by id.
    spec fn messages(&self) -> Messages;

    /// Every request to the service succeeds. A service that is not
    /// described otherwise may fail any request.
    closed spec fn available(&self) -> bool {
        false
    }

    /// Connect to the service with a token and a message channel.
    fn new(token: &str, channel: u64) -> (r: Result<Self, BridgeError>);

    /// Send a message of bytes; on success, the id of the new message, which
    /// no message held before. No message that the service held is lost or
    /// changed.
    fn send_message(&mut self, content: &[u8]) -> (r: Result<u64, BridgeError>)
        ensures
            old(self).messages().submap_of(final(self).messages()),
            final(self).available() == old(self).available(),
            old(self).available() ==> r is Ok,
            r matches Ok(id) ==> {
                &&& !old(self).messages().contains_key(id)
                &&& final(self).messages().contains_key(id)
                &&& final(self).messages()[id] == content@
            },
    ;

    /// The bytes of the message with the given id, as they were sent.
    fn get_message(&self, id: u64) -> (r: Result<Vec<u8>, BridgeError>)
        ensures
            self.available() ==> r is Ok,
            r matches Ok(data) ==> self.messages().contains_key(id) ==> data@
                == self.messages()[id],
    ;
}

/// Whether the service takes an attachment of `len` bytes: it refuses one
/// larger than `max` bytes.
pub fn check_attachment_size(len: usize, max: usize) -> (r: Result<(), BridgeError>)
    ensures
        r is Ok <==> len <= max,
        r matches Err(e) ==> e == BridgeError::TooLarge,
{
    if len > max {
        Err(BridgeError::TooLarge)
    } else {
        Ok(())
    }
}

} // verus!
