//! A chat service that keeps its messages in memory, for tests.
use vstd::prelude::*;
use crate::bridge::{BridgeError, ChatServiceBridge};
use crate::config::Config;
use crate::layout::{zero_bytes, zeros};

verus! {

/// Messages kept in a vector; a message's id is its position.
pub struct TestBridge {
    data: Vec<Vec<u8>>,
}

impl TestBridge {
    /// The number of messages sent so far.
    pub closed spec fn count(&self) -> nat {
        self.data@.len()
    }
}

impl ChatServiceBridge for TestBridge {
    const MAX_FILE_SIZE: usize = 1_000_000;

    closed spec fn messages(&self) -> Map<u64, Seq<u8>> {
        Map::new(|k: u64| (k as int) < self.data@.len(), |k: u64| self.data@[k as int]@)
    }

    /// The token and the channel are not used; the bridge starts empty.
    /// The in-memory service never fails.
    open spec fn available(&self) -> bool {
        true
    }

    fn new(token: &str, channel: u64) -> (r: Result<Self, BridgeError>)
        ensures
            r matches Ok(b) && b.messages() == Map::<u64, Seq<u8>>::empty() && b.count() == 0,
    {
        let _ = token;
        let _ = channel;
        let b = TestBridge { data: Vec::with_capacity(1_000) };
        assert(b.messages() =~= Map::<u64, Seq<u8>>::empty());
        Ok(b)
    }

    /// Keeps the message under the next free position.
    fn send_message(&mut self, content: &[u8]) -> (r: Result<u64, BridgeError>)
        ensures
            r == Ok::<u64, BridgeError>(old(self).count() as u64),
            final(self).count() == old(self).count() + 1,
            final(self).messages() == old(self).messages().insert(
                old(self).count() as u64,
                content@,
            ),
    {
        let idx: usize = self.data.len();
        let ghost before = self.messages();
        self.data.push(vstd::slice::slice_to_vec(content));
        assert(self.messages() =~= before.insert(idx as u64, content@));
        Ok(idx as u64)
    }

    /// A message that was never sent reads as a chunk of zero bytes.
    fn get_message(&self, id: u64) -> (r: Result<Vec<u8>, BridgeError>)
        ensures
            r matches Ok(data) && data@ == (if self.messages().contains_key(id) {
                self.messages()[id]
            } else {
                zeros(Self::MAX_FILE_SIZE as nat)
            }),
    {
        if id < self.data.len() as u64 {
            Ok(self.data[id as usize].clone())
        } else {
            Ok(zero_bytes(Self::MAX_FILE_SIZE))
        }
    }
}

/// The chunk size of the in-memory service.
pub proof fn lemma_max_file_size()
    ensures
        TestBridge::MAX_FILE_SIZE == 1_000_000,
{
}

/// The configuration that tests open a drive with.
pub fn test_config() -> (c: Config)
    ensures
        c.token@ == Seq::<char>::empty(),
        c.channel == 0,
{
    Config { token: String::new(), channel: 0 }
}

} // verus!
