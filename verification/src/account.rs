//! Accounts as the library sees them: an identity and a buffer of bytes.

use crate::error::DispatchError;
use vstd::prelude::*;

verus! {

/// The identity of an account: thirty-two bytes, compared byte by byte.
#[derive(Clone, Copy, Debug, PartialEq, Eq)]
pub struct Pubkey {
    pub bytes: [u8; 32],
}

impl View for Pubkey {
    type V = Seq<u8>;

    open spec fn view(&self) -> Seq<u8> {
        self.bytes@
    }
}

impl Pubkey {
    /// The identity with these bytes.
    pub fn new(bytes: [u8; 32]) -> (key: Self)
        ensures
            key@ == bytes@,
    {
        Pubkey { bytes }
    }

    /// The bytes of the identity, as the key under which records file it.
    pub fn to_key(&self) -> (key: Vec<u8>)
        ensures
            key@ == self@,
            key@.len() == 32,
    {
        vstd::slice::slice_to_vec(vstd::array::array_as_slice(&self.bytes))
    }
}

/// One account: who it is, and the bytes that the host keeps for it. The
/// buffer has a fixed length; operations overwrite its bytes and never grow
/// or shrink it.
#[derive(Clone, Debug, PartialEq, Eq)]
pub struct Account {
    pub key: Pubkey,
    pub data: Vec<u8>,
}

/// `data` with `front` written over its first bytes.
pub open spec fn overwritten(data: Seq<u8>, front: Seq<u8>) -> Seq<u8> {
    front + data.skip(front.len() as int)
}

impl Account {
    /// Writes `bytes` over the front of the buffer, where they are no longer
    /// than the buffer; else leaves the buffer as it is and says so.
    pub fn overwrite(&mut self, bytes: &Vec<u8>) -> (res: Result<(), DispatchError>)
        ensures
            final(self).key == old(self).key,
            if bytes@.len() <= old(self).data@.len() {
                &&& res == Ok::<(), DispatchError>(())
                &&& final(self).data@ == overwritten(old(self).data@, bytes@)
            } else {
                &&& res == Err::<(), DispatchError>(DispatchError::AccountDataTooSmall)
                &&& final(self).data@ == old(self).data@
            },
    {
        let n: usize = bytes.len();
        if n > self.data.len() {
            return Err(DispatchError::AccountDataTooSmall);
        }
        let mut i: usize = 0;
        while i < n
            invariant
                i <= n == bytes@.len(),
                n <= self.data@.len(),
                self.key == old(self).key,
                self.data@.len() == old(self).data@.len(),
                forall|j: int| 0 <= j < i ==> self.data@[j] == bytes@[j],
                forall|j: int| i <= j < self.data@.len() ==> self.data@[j] == old(self).data@[j],
            decreases n - i,
        {
            self.data[i] = bytes[i];
            i += 1;
        }
        assert(self.data@ =~= overwritten(old(self).data@, bytes@));
        Ok(())
    }
}

} // verus!
