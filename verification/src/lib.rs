//! On-chain mailboxes: a connection handshake, per-account inboxes and a
//! key/value document store, over byte buffers that the host owns.

pub mod account;
pub mod bits;
pub mod documents;
pub mod error;
pub mod instruction;
pub mod messaging;
pub mod processor;
pub mod layout;
pub mod record;
pub mod record_format;
pub mod table;
pub mod wire;

pub use crate::account::{Account, Pubkey};
pub use crate::bits::{read_bytes, read_bytes_pair, read_u32, read_u64};
pub use crate::documents::DocumentData;
pub use crate::error::DispatchError;
pub use crate::instruction::Instruction;
pub use crate::processor::{process_instruction, Outcome};
pub use crate::record::{Connection, DispatchData, Message, MessagingData};
