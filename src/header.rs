use vstd::prelude::*;
use crate::codec::{bytes_to_u32, le_bytes, le_value, u32_to_bytes};

verus! {

/// The file-level header, written once at offset 0: the payload capacity of
/// every slot.
pub struct StorageHeader {
    pub block_len: u32,
}

impl StorageHeader {
    pub fn new(block_len: u32) -> (r: StorageHeader)
        ensures
            r.block_len == block_len,
    {
        StorageHeader { block_len }
    }

    pub fn from_bytes(bytes: &[u8; 4]) -> (r: StorageHeader)
        ensures
            r.block_len == le_value(bytes@),
    {
        let block_len = bytes_to_u32(bytes);
        StorageHeader { block_len }
    }

    pub fn to_bytes(&self) -> (r: [u8; 4])
        ensures
            r@ == le_bytes(self.block_len),
            le_value(r@) == self.block_len,
    {
        u32_to_bytes(self.block_len)
    }
}

/// The header in front of each slot: how many payload bytes the slot holds.
/// Zero marks the slot as free.
pub struct BlockHeader {
    pub block_data_size: u32,
}

impl BlockHeader {
    pub fn new(block_data_size: u32) -> (r: BlockHeader)
        ensures
            r.block_data_size == block_data_size,
    {
        BlockHeader { block_data_size: block_data_size }
    }

    pub fn from_bytes(bytes: &[u8; 4]) -> (r: BlockHeader)
        ensures
            r.block_data_size == le_value(bytes@),
    {
        let block_data_size = bytes_to_u32(bytes);
        BlockHeader { block_data_size: block_data_size }
    }

    pub fn to_bytes(&self) -> (r: [u8; 4])
        ensures
            r@ == le_bytes(self.block_data_size),
            le_value(r@) == self.block_data_size,
    {
        u32_to_bytes(self.block_data_size)
    }
}

} // verus!
