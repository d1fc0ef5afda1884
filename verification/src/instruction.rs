//! Instructions as they arrive: one byte that names the operation, then its
//! operands, big-endian and one behind the other.
//!
//! | first byte | operation | operands |
//! |---|---|---|
//! | 0 | accept a connection | cipher, length in front |
//! | 1 | request a connection | cipher, length in front |
//! | 2 | break a connection | none |
//! | 3 | send a message | time in eight bytes, then the message, length in front |
//! | 4 | collect one conversation | threshold in eight bytes |
//! | 5 | collect all conversations | threshold in eight bytes |
//! | 64 | clear the documents | none |
//! | 65 | delete a document | key, length in front |
//! | 66 | put a document | key, then value, each with its length in front |
//!
//! Any other first byte names no operation; such an instruction is read as
//! `Unsupported` and is no error. Bytes behind the operands are not read.

use crate::bits::{
    bytes_at, bytes_end, can_read_bytes, can_read_bytes_pair, holds_bytes, holds_bytes_pair,
    read_bytes, read_bytes_pair, read_u64, u64_at,
};
use crate::error::DispatchError;
use vstd::prelude::*;

verus! {

/// An instruction with its operands read out of the payload.
#[derive(Clone, Debug, PartialEq, Eq)]
pub enum Instruction {
    AcceptConnection { cipher: Vec<u8> },
    RequestConnection { cipher: Vec<u8> },
    BreakConnection,
    SendMessage { timestamp: u64, message: Vec<u8> },
    GcConversation { older_than: u64 },
    GcConversations { older_than: u64 },
    DocumentClear,
    DocumentDelete { key: Vec<u8> },
    DocumentPut { key: Vec<u8>, value: Vec<u8> },
    Unsupported { opcode: u8 },
}

/// An instruction as a value of mathematics.
pub enum InstructionView {
    AcceptConnection { cipher: Seq<u8> },
    RequestConnection { cipher: Seq<u8> },
    BreakConnection,
    SendMessage { timestamp: u64, message: Seq<u8> },
    GcConversation { older_than: u64 },
    GcConversations { older_than: u64 },
    DocumentClear,
    DocumentDelete { key: Seq<u8> },
    DocumentPut { key: Seq<u8>, value: Seq<u8> },
    Unsupported { opcode: u8 },
}

impl View for Instruction {
    type V = InstructionView;

    open spec fn view(&self) -> InstructionView {
        match *self {
            Instruction::AcceptConnection { cipher } => InstructionView::AcceptConnection {
                cipher: cipher@,
            },
            Instruction::RequestConnection { cipher } => InstructionView::RequestConnection {
                cipher: cipher@,
            },
            Instruction::BreakConnection => InstructionView::BreakConnection,
            Instruction::SendMessage { timestamp, message } => InstructionView::SendMessage {
                timestamp,
                message: message@,
            },
            Instruction::GcConversation { older_than } => InstructionView::GcConversation {
                older_than,
            },
            Instruction::GcConversations { older_than } => InstructionView::GcConversations {
                older_than,
            },
            Instruction::DocumentClear => InstructionView::DocumentClear,
            Instruction::DocumentDelete { key } => InstructionView::DocumentDelete { key: key@ },
            Instruction::DocumentPut { key, value } => InstructionView::DocumentPut {
                key: key@,
                value: value@,
            },
            Instruction::Unsupported { opcode } => InstructionView::Unsupported { opcode },
        }
    }
}

/// The instruction that a payload spells. Nothing where the payload is empty
/// or ends before the operands of its operation do.
pub open spec fn parse_instruction(data: Seq<u8>) -> Option<InstructionView> {
    if data.len() == 0 {
        None
    } else if data[0] == 0 {
        if holds_bytes(data, 1) {
            Some(InstructionView::AcceptConnection { cipher: bytes_at(data, 1) })
        } else {
            None
        }
    } else if data[0] == 1 {
        if holds_bytes(data, 1) {
            Some(InstructionView::RequestConnection { cipher: bytes_at(data, 1) })
        } else {
            None
        }
    } else if data[0] == 2 {
        Some(InstructionView::BreakConnection)
    } else if data[0] == 3 {
        if 9 <= data.len() && holds_bytes(data, 9) {
            Some(
                InstructionView::SendMessage {
                    timestamp: u64_at(data, 1) as u64,
                    message: bytes_at(data, 9),
                },
            )
        } else {
            None
        }
    } else if data[0] == 4 {
        if 9 <= data.len() {
            Some(InstructionView::GcConversation { older_than: u64_at(data, 1) as u64 })
        } else {
            None
        }
    } else if data[0] == 5 {
        if 9 <= data.len() {
            Some(InstructionView::GcConversations { older_than: u64_at(data, 1) as u64 })
        } else {
            None
        }
    } else if data[0] == 64 {
        Some(InstructionView::DocumentClear)
    } else if data[0] == 65 {
        if holds_bytes(data, 1) {
            Some(InstructionView::DocumentDelete { key: bytes_at(data, 1) })
        } else {
            None
        }
    } else if data[0] == 66 {
        if holds_bytes_pair(data, 1) {
            Some(
                InstructionView::DocumentPut {
                    key: bytes_at(data, 1),
                    value: bytes_at(data, bytes_end(data, 1)),
                },
            )
        } else {
            None
        }
    } else {
        Some(InstructionView::Unsupported { opcode: data[0] })
    }
}

impl Instruction {
    /// Reads an instruction out of a payload.
    pub fn decode(data: &[u8]) -> (res: Result<Instruction, DispatchError>)
        ensures
            match parse_instruction(data@) {
                Some(instruction) => res matches Ok(found) && found@ == instruction,
                None => res matches Err(e) && e == DispatchError::InvalidInstruction,
            },
    {
        if data.len() == 0 {
            return Err(DispatchError::InvalidInstruction);
        }
        let opcode: u8 = data[0];
        if opcode == 0 || opcode == 1 || opcode == 65 {
            if !can_read_bytes(1, data) {
                return Err(DispatchError::InvalidInstruction);
            }
            let bytes: Vec<u8> = read_bytes(1, data);
            if opcode == 0 {
                Ok(Instruction::AcceptConnection { cipher: bytes })
            } else if opcode == 1 {
                Ok(Instruction::RequestConnection { cipher: bytes })
            } else {
                Ok(Instruction::DocumentDelete { key: bytes })
            }
        } else if opcode == 2 {
            Ok(Instruction::BreakConnection)
        } else if opcode == 3 || opcode == 4 || opcode == 5 {
            if data.len() < 9 {
                return Err(DispatchError::InvalidInstruction);
            }
            let number: u64 = read_u64(1, data);
            if opcode == 4 {
                Ok(Instruction::GcConversation { older_than: number })
            } else if opcode == 5 {
                Ok(Instruction::GcConversations { older_than: number })
            } else if can_read_bytes(9, data) {
                Ok(Instruction::SendMessage { timestamp: number, message: read_bytes(9, data) })
            } else {
                Err(DispatchError::InvalidInstruction)
            }
        } else if opcode == 64 {
            Ok(Instruction::DocumentClear)
        } else if opcode == 66 {
            if !can_read_bytes_pair(1, data) {
                return Err(DispatchError::InvalidInstruction);
            }
            let (key, value) = read_bytes_pair(1, data);
            Ok(Instruction::DocumentPut { key, value })
        } else {
            Ok(Instruction::Unsupported { opcode })
        }
    }
}

} // verus!
