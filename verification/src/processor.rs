//! The router: from an instruction and the accounts handed over with it to
//! the operation that the instruction names.
//!
//! The identities that an operation speaks of are those of the accounts, by
//! their place in the list; the payload carries the other operands. The
//! first two accounts are, in this order: acceptor and requester; requester
//! and contact (to request and to break); sender and recipient; holder and
//! contact. Collecting all conversations and the document store read the
//! first account only.

use crate::account::{Account, Pubkey};
use crate::documents;
use crate::documents::Change;
use crate::error::DispatchError;
use crate::instruction::{parse_instruction, Instruction, InstructionView};
use crate::messaging;
use crate::record::{MessageView, Step};
use vstd::prelude::*;

verus! {

/// How an instruction that did not fail ended.
#[derive(Clone, Copy, Debug, PartialEq, Eq, Structural)]
pub enum Outcome {
    /// The operation was carried out.
    Done,
    /// The first byte names no operation. Nothing was read or written; the
    /// caller may want to say so in its log.
    Unsupported,
}

/// How many accounts an instruction reads, from the front of the list.
pub open spec fn accounts_needed(instruction: InstructionView) -> nat {
    match instruction {
        InstructionView::AcceptConnection { .. } => 2,
        InstructionView::RequestConnection { .. } => 2,
        InstructionView::BreakConnection => 2,
        InstructionView::SendMessage { .. } => 2,
        InstructionView::GcConversation { .. } => 2,
        InstructionView::GcConversations { .. } => 1,
        InstructionView::DocumentClear => 1,
        InstructionView::DocumentDelete { .. } => 1,
        InstructionView::DocumentPut { .. } => 1,
        InstructionView::Unsupported { .. } => 0,
    }
}

/// Whether `after` is `before` but for the buffers of the first `n`
/// accounts: as many accounts, each with its identity, and all from the
/// `n`-th on as they were.
pub open spec fn touches_first(before: Seq<Account>, after: Seq<Account>, n: nat) -> bool {
    &&& after.len() == before.len()
    &&& forall|i: int| 0 <= i < before.len() ==> (#[trigger] after[i]).key == before[i].key
    &&& forall|i: int| n <= i < before.len() ==> #[trigger] after[i] == before[i]
}

/// Whether `after` and `res` are what `instruction` makes of `before`.
pub open spec fn carried_out(
    instruction: InstructionView,
    before: Seq<Account>,
    after: Seq<Account>,
    res: Result<(), DispatchError>,
) -> bool
    recommends
        before.len() >= accounts_needed(instruction),
        after.len() == before.len(),
{
    match instruction {
        InstructionView::AcceptConnection { cipher } => (after[0].data@, after[1].data@, res)
            == messaging::transact_both(
            before[0].data@,
            Step::Accept { peer: before[1].key@ },
            before[1].data@,
            Step::Acknowledge { peer: before[0].key@, cipher },
        ),
        InstructionView::RequestConnection { cipher } => after[0].data@ == before[0].data@ && (
            after[1].data@,
            res,
        ) == messaging::transact(before[1].data@, Step::Request { peer: before[0].key@, cipher }),
        InstructionView::BreakConnection => (after[1].data@, after[0].data@, res)
            == messaging::transact_both(
            before[1].data@,
            Step::Break { peer: before[0].key@ },
            before[0].data@,
            Step::Break { peer: before[1].key@ },
        ),
        InstructionView::SendMessage { timestamp, message } => after[0].data@ == before[0].data@
            && (after[1].data@, res) == messaging::transact(
            before[1].data@,
            Step::Deliver { peer: before[0].key@, message: MessageView { timestamp, message } },
        ),
        InstructionView::GcConversation { older_than } => after[1].data@ == before[1].data@ && (
            after[0].data@,
            res,
        ) == messaging::transact(
            before[0].data@,
            Step::Collect { peer: before[1].key@, older_than },
        ),
        InstructionView::GcConversations { older_than } => (after[0].data@, res)
            == messaging::transact(before[0].data@, Step::CollectAll { older_than }),
        InstructionView::DocumentClear => (after[0].data@, res) == documents::transact(
            before[0].data@,
            Change::Clear,
        ),
        InstructionView::DocumentDelete { key } => (after[0].data@, res) == documents::transact(
            before[0].data@,
            Change::Delete { key },
        ),
        InstructionView::DocumentPut { key, value } => (after[0].data@, res)
            == documents::transact(before[0].data@, Change::Put { key, value }),
        InstructionView::Unsupported { .. } => res == Ok::<(), DispatchError>(()),
    }
}

/// What `process_instruction` owes for a payload and a list of accounts.
pub open spec fn processed(
    before: Seq<Account>,
    data: Seq<u8>,
    after: Seq<Account>,
    res: Result<Outcome, DispatchError>,
) -> bool {
    match parse_instruction(data) {
        None => res == Err::<Outcome, DispatchError>(DispatchError::InvalidInstruction) && after
            == before,
        Some(instruction) => if before.len() < accounts_needed(instruction) {
            res == Err::<Outcome, DispatchError>(DispatchError::NotEnoughAccounts) && after
                == before
        } else {
            &&& touches_first(before, after, accounts_needed(instruction))
            &&& match res {
                Ok(outcome) => {
                    &&& carried_out(instruction, before, after, Ok(()))
                    &&& outcome is Unsupported <==> instruction is Unsupported
                },
                Err(e) => carried_out(instruction, before, after, Err(e)),
            }
        },
    }
}

/// The first two accounts of a list, both to be changed.
fn first_two(accounts: &mut [Account]) -> (pair: (&mut Account, &mut Account))
    requires
        old(accounts)@.len() >= 2,
    ensures
        *pair.0 == old(accounts)@[0],
        *pair.1 == old(accounts)@[1],
        final(accounts)@ == old(accounts)@.update(0, *final(pair.0)).update(1, *final(pair.1)),
{
    let (head, tail) = accounts.split_at_mut(1);
    let ghost front = head@;
    let ghost back = tail@;
    let first = head.first_mut().unwrap();
    let second = tail.first_mut().unwrap();
    proof {
        assert(front.update(0, *final(first)) + back.update(0, *final(second)) =~= old(
            accounts,
        )@.update(0, *final(first)).update(1, *final(second)));
    }
    (first, second)
}

/// Carries out one instruction: reads the operation and its operands out of
/// `data`, makes sure that enough accounts were handed over, and runs the
/// operation on them. A first byte that names no operation is no error.
pub fn process_instruction(_program_id: &Pubkey, accounts: &mut [Account], data: &[u8]) -> (res:
    Result<Outcome, DispatchError>)
    ensures
        processed(old(accounts)@, data@, final(accounts)@, res),
{
    let instruction: Instruction = match Instruction::decode(data) {
        Ok(instruction) => instruction,
        Err(e) => {
            return Err(e);
        },
    };
    let count: usize = accounts.len();
    let done: Result<(), DispatchError> = match instruction {
        Instruction::AcceptConnection { cipher } => {
            if count < 2 {
                return Err(DispatchError::NotEnoughAccounts);
            }
            let (acceptor, requester) = first_two(accounts);
            messaging::accept_connection(acceptor, requester, cipher)
        },
        Instruction::RequestConnection { cipher } => {
            if count < 2 {
                return Err(DispatchError::NotEnoughAccounts);
            }
            let (requester, contact) = first_two(accounts);
            messaging::request_connection(requester, contact, cipher)
        },
        Instruction::BreakConnection => {
            if count < 2 {
                return Err(DispatchError::NotEnoughAccounts);
            }
            let (requester, contact) = first_two(accounts);
            messaging::break_connection(requester, contact)
        },
        Instruction::SendMessage { timestamp, message } => {
            if count < 2 {
                return Err(DispatchError::NotEnoughAccounts);
            }
            let (from, to) = first_two(accounts);
            messaging::send_message(from, to, timestamp, message)
        },
        Instruction::GcConversation { older_than } => {
            if count < 2 {
                return Err(DispatchError::NotEnoughAccounts);
            }
            let (holder, contact) = first_two(accounts);
            messaging::gc_conversation(holder, contact, older_than)
        },
        Instruction::GcConversations { older_than } => {
            if count < 1 {
                return Err(DispatchError::NotEnoughAccounts);
            }
            messaging::gc_conversations(&mut accounts[0], older_than)
        },
        Instruction::DocumentClear => {
            if count < 1 {
                return Err(DispatchError::NotEnoughAccounts);
            }
            documents::clear(&mut accounts[0])
        },
        Instruction::DocumentDelete { key } => {
            if count < 1 {
                return Err(DispatchError::NotEnoughAccounts);
            }
            documents::delete(&mut accounts[0], key)
        },
        Instruction::DocumentPut { key, value } => {
            if count < 1 {
                return Err(DispatchError::NotEnoughAccounts);
            }
            documents::put(&mut accounts[0], key, value)
        },
        Instruction::Unsupported { .. } => {
            return Ok(Outcome::Unsupported);
        },
    };
    match done {
        Ok(()) => Ok(Outcome::Done),
        Err(e) => Err(e),
    }
}

} // verus!
