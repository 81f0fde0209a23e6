use vstd::prelude::*;

verus! {

/// The failures that the chat logic distinguishes.
#[derive(Debug, Clone, PartialEq, Eq)]
pub enum OnionChatError {
    TorAuth(String),
    TorProtocol(String),
    InvalidOnionAddress,
    MessageTooLarge(usize),
    MissingIdentity,
    InvalidInvite,
    InvalidGroupInvite,
    InvalidMessageSignature,
    MessageEncryptionFailed,
    MessageDecryptionFailed,
    MissingPeer(String),
    MissingPeerEncryptionKey(String),
    MissingGroup(String),
    EmptyGroup,
    UnauthorizedGroupSender(String),
    GroupOwnerMismatch,
    StaleGroupRevision,
    NotGroupOwner,
}

/// A failure of an operation that may also end with a free-form message
/// (a malformed Tor reply, a missing reply field).
#[derive(Debug, Clone, PartialEq, Eq)]
pub enum Failure {
    Chat(OnionChatError),
    Other(String),
}

} // verus!
