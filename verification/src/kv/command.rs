//! Client operations and their encoding.

use vstd::prelude::*;
use vstd::string::StringExecFns;

use crate::kv::codec;
use crate::kv::codec::{push_frame, read_frame};
use crate::text;
use crate::text::append_decimal;

verus! {

/// A client operation against the replicated key/value state machine. `Get` is
/// a command, not a side-channel read: routing it through the log is what
/// makes it linearizable.
#[derive(Debug, Eq, PartialEq)]
pub enum Command {
    Put { key: Vec<u8>, value: Vec<u8> },
    Delete { key: Vec<u8> },
    Get { key: Vec<u8> },
}

/// The view of a [`Command`].
#[verifier::ext_equal]
pub enum CommandView {
    Put { key: Seq<u8>, value: Seq<u8> },
    Delete { key: Seq<u8> },
    Get { key: Seq<u8> },
}

impl DeepView for Command {
    type V = CommandView;

    open spec fn deep_view(&self) -> CommandView {
        match self {
            Command::Put { key, value } => CommandView::Put { key: key@, value: value@ },
            Command::Delete { key } => CommandView::Delete { key: key@ },
            Command::Get { key } => CommandView::Get { key: key@ },
        }
    }
}

impl Clone for Command {
    fn clone(&self) -> (copy: Self)
        ensures
            copy.deep_view() == self.deep_view(),
    {
        match self {
            Command::Put { key, value } => Command::Put { key: key.clone(), value: value.clone() },
            Command::Delete { key } => Command::Delete { key: key.clone() },
            Command::Get { key } => Command::Get { key: key.clone() },
        }
    }
}

/// Invalid or truncated command bytes.
#[derive(Clone, Copy, Debug, Eq, PartialEq, Structural)]
pub enum DecodeError {
    Truncated,
    UnknownTag(u8),
}

impl DecodeError {
    /// The reason, for a person to read.
    pub fn message(&self) -> (text: String)
        ensures
            text@ == match self {
                DecodeError::Truncated =>
                    "command bytes ended before a complete value was read"@,
                DecodeError::UnknownTag(tag) => "unknown command tag "@ + text::characters(
                    text::digits(*tag as nat),
                ),
            },
    {
        match self {
            DecodeError::Truncated => String::from_str(
                "command bytes ended before a complete value was read",
            ),
            DecodeError::UnknownTag(tag) => {
                let mut message = String::from_str("unknown command tag ");
                append_decimal(&mut message, *tag as u64);
                message
            },
        }
    }
}

pub const PUT_TAG: u8 = 0;

pub const DELETE_TAG: u8 = 1;

pub const GET_TAG: u8 = 2;

impl CommandView {
    /// A one-byte tag, then each byte string behind its length.
    pub open spec fn encoded(self) -> Seq<u8> {
        match self {
            CommandView::Put { key, value } => seq![PUT_TAG] + codec::frame(key) + codec::frame(
                value,
            ),
            CommandView::Delete { key } => seq![DELETE_TAG] + codec::frame(key),
            CommandView::Get { key } => seq![GET_TAG] + codec::frame(key),
        }
    }

    /// Whether every length fits its prefix.
    pub open spec fn fits(self) -> bool {
        match self {
            CommandView::Put { key, value } => key.len() < 0x1_0000_0000 && value.len()
                < 0x1_0000_0000,
            CommandView::Delete { key } => key.len() < 0x1_0000_0000,
            CommandView::Get { key } => key.len() < 0x1_0000_0000,
        }
    }

    pub open spec fn key(self) -> Seq<u8> {
        match self {
            CommandView::Put { key, .. } => key,
            CommandView::Delete { key } => key,
            CommandView::Get { key } => key,
        }
    }
}

/// The command that `bytes` begin with. Whatever follows it is ignored.
pub open spec fn decoded(bytes: Seq<u8>) -> Result<CommandView, DecodeError> {
    if bytes.len() == 0 {
        Err(DecodeError::Truncated)
    } else if bytes[0] > GET_TAG {
        Err(DecodeError::UnknownTag(bytes[0]))
    } else {
        match codec::framed_at(bytes, 1) {
            None => Err(DecodeError::Truncated),
            Some((key, end)) => if bytes[0] == PUT_TAG {
                match codec::framed_at(bytes, end) {
                    None => Err(DecodeError::Truncated),
                    Some((value, _)) => Ok(CommandView::Put { key, value }),
                }
            } else if bytes[0] == DELETE_TAG {
                Ok(CommandView::Delete { key })
            } else {
                Ok(CommandView::Get { key })
            },
        }
    }
}

/// Decoding what was encoded gives the command back, whatever bytes follow.
/// Lengths must fit their 32-bit prefix.
pub proof fn encoding_reads_back(command: CommandView, after: Seq<u8>)
    requires
        command.fits(),
    ensures
        decoded(command.encoded() + after) == Ok::<CommandView, DecodeError>(command),
{
    let bytes = command.encoded() + after;
    match command {
        CommandView::Put { key, value } => {
            let tag = seq![PUT_TAG];
            codec::frame_reads_back(tag, key, codec::frame(value) + after);
            assert(bytes =~= tag + codec::frame(key) + (codec::frame(value) + after));
            codec::frame_reads_back(tag + codec::frame(key), value, after);
            assert(bytes =~= (tag + codec::frame(key)) + codec::frame(value) + after);
        },
        CommandView::Delete { key } => {
            codec::frame_reads_back(seq![DELETE_TAG], key, after);
        },
        CommandView::Get { key } => {
            codec::frame_reads_back(seq![GET_TAG], key, after);
        },
    }
}

impl Command {
    /// Encodes this command as a self-describing byte string: a one-byte tag
    /// followed by length-prefixed byte strings.
    pub fn encode(&self) -> (bytes: Vec<u8>)
        ensures
            bytes@ == self.deep_view().encoded(),
    {
        let mut bytes: Vec<u8> = Vec::new();
        match self {
            Command::Put { key, value } => {
                bytes.push(PUT_TAG);
                push_frame(&mut bytes, key);
                push_frame(&mut bytes, value);
            },
            Command::Delete { key } => {
                bytes.push(DELETE_TAG);
                push_frame(&mut bytes, key);
            },
            Command::Get { key } => {
                bytes.push(GET_TAG);
                push_frame(&mut bytes, key);
            },
        }
        assert(bytes@ =~= self.deep_view().encoded());
        bytes
    }

    /// The inverse of [`Command::encode`].
    pub fn decode(bytes: &[u8]) -> (result: Result<Self, DecodeError>)
        ensures
            match result {
                Ok(command) => decoded(bytes@) == Ok::<CommandView, DecodeError>(
                    command.deep_view(),
                ),
                Err(error) => decoded(bytes@) == Err::<CommandView, DecodeError>(error),
            },
    {
        if bytes.len() == 0 {
            return Err(DecodeError::Truncated);
        }
        let tag: u8 = bytes[0];
        if tag > GET_TAG {
            return Err(DecodeError::UnknownTag(tag));
        }
        match read_frame(bytes, 1) {
            None => Err(DecodeError::Truncated),
            Some((key, end)) => {
                if tag == PUT_TAG {
                    match read_frame(bytes, end) {
                        None => Err(DecodeError::Truncated),
                        Some((value, _)) => Ok(Command::Put { key, value }),
                    }
                } else if tag == DELETE_TAG {
                    Ok(Command::Delete { key })
                } else {
                    Ok(Command::Get { key })
                }
            },
        }
    }
}

} // verus!
