//! What the chain tells a call: the message, the block and the transaction.
use crate::address::Address;
use crate::u256::U256;
use vstd::prelude::*;

verus! {

/// The current call: who sent it and what amount came with it.
pub struct Msg {
    pub sender: Address,
    pub amount: U256,
}

/// The block the call is in.
pub struct Block {
    pub parent_hash: Vec<u8>,
    pub created_at: u64,
    pub height: u64,
}

/// The transaction the call is in.
pub struct Transaction {
    pub tx_type: u8,
    pub created_at: u64,
    pub nonce: u64,
    pub origin: Address,
    pub gas_price: U256,
    pub amount: U256,
    pub to: Address,
    pub signature: Vec<u8>,
    pub hash: Vec<u8>,
}

} // verus!
