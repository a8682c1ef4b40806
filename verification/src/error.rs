//! The errors that the message protocol reports.
use vstd::prelude::*;

verus! {

/// Why a message, a packet or a value could not be handled.
#[derive(Clone, Copy, PartialEq, Eq, Debug, Structural)]
pub enum ProtocolError {
    /// A byte that names no object type.
    InvalidObjectType(u8),
    /// A packet shorter than its title and footer; holds its length.
    ChunkTooShort(usize),
    /// A packet that does not begin with the chunk header.
    InvalidChunkHeader,
    /// A packet that does not end with the chunk footer.
    InvalidChunkFooter,
    /// Packets of one message that disagree on their command or message id.
    OptionMismatch,
    /// A packet whose number is not its place in the message.
    PacketOutOfOrder,
    /// A message that holds no packet at all.
    EmptyMessage,
    /// A message whose last packet holds no `END` token.
    NoEndChunk,
    /// A message whose last `END` token is neither right after the title nor at the end.
    InvalidEndPosition,
    /// A packet whose number the message already holds.
    DuplicatePacket,
    /// A packet for a message that is already complete.
    MessageAlreadyReady,
    /// A packet too small to carry its title and footer.
    PacketTooSmall,
    /// A received packet that could not be added to its message, or whose message could
    /// not be read once complete.
    CouldNotAddPacket,
    /// An update whose length is not a whole number of objects.
    InvalidUpdateLength,
    /// A login shorter than its fixed fields.
    LoginTooShort,
    /// A login name longer than 256 bytes.
    LoginNameTooLong,
    /// Bytes that are not UTF-8 where a string is expected.
    InvalidUtf8,
    /// An id range that is not 8 bytes long.
    InvalidIdRangeSize,
    /// An id request that is not 4 bytes long.
    InvalidIdRequestSize,
    /// A command id that names no command.
    UnknownCommand(u8),
}

} // verus!
