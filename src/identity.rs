use vstd::prelude::*;

verus! {

/// A 256-bit hash, as four 64-bit words, least significant first.
#[derive(Debug, Clone, Copy, PartialEq, Eq, Structural)]
pub struct B256 {
    pub w0: u64,
    pub w1: u64,
    pub w2: u64,
    pub w3: u64,
}

impl B256 {
    /// The hash whose low word is `v` and whose other words are zero.
    pub fn from_low(v: u64) -> (r: B256)
        ensures
            r == (B256 { w0: v, w1: 0, w2: 0, w3: 0 }),
    {
        B256 { w0: v, w1: 0, w2: 0, w3: 0 }
    }
}

/// A block number together with the block's hash.
#[derive(Debug, Clone, Copy, PartialEq, Eq, Structural)]
pub struct BlockNumHash {
    pub number: u64,
    pub hash: B256,
}

/// A block given by number or by a symbolic tag.
#[derive(Debug, Clone, Copy, PartialEq, Eq, Structural)]
pub enum BlockNumberOrTag {
    Latest,
    Finalized,
    Safe,
    Earliest,
    Pending,
    Number(u64),
}

/// A block given by hash, or by number or tag.
#[derive(Debug, Clone, Copy, PartialEq, Eq, Structural)]
pub enum BlockId {
    Hash(B256),
    Number(BlockNumberOrTag),
}

/// A snapshot of the progress of the canonical chain.
#[derive(Debug, Clone, Copy, PartialEq, Eq, Structural)]
pub struct ChainInfo {
    pub best_number: u64,
    pub best_hash: B256,
    pub last_finalized: Option<u64>,
    pub safe_finalized: Option<u64>,
}

/// The number a tag stands for, given the chain progress and the pending
/// block; `None` when the tag names nothing yet.
pub open spec fn resolve_number(
    info: ChainInfo,
    pending: Option<BlockNumHash>,
    num: BlockNumberOrTag,
) -> Option<u64> {
    match num {
        BlockNumberOrTag::Latest => Some(info.best_number),
        BlockNumberOrTag::Number(n) => Some(n),
        BlockNumberOrTag::Pending => match pending {
            Some(p) => Some(p.number),
            None => Some(info.best_number),
        },
        BlockNumberOrTag::Finalized => info.last_finalized,
        BlockNumberOrTag::Safe => info.safe_finalized,
        BlockNumberOrTag::Earliest => Some(0),
    }
}

/// Resolves a number or tag to a block number.
///
/// `Pending` falls back to the tip when there is no pending block.
pub fn convert_block_number(
    info: &ChainInfo,
    pending: Option<BlockNumHash>,
    num: BlockNumberOrTag,
) -> (r: Option<u64>)
    ensures
        r == resolve_number(*info, pending, num),
{
    match num {
        BlockNumberOrTag::Latest => Some(info.best_number),
        BlockNumberOrTag::Number(n) => Some(n),
        BlockNumberOrTag::Pending => match pending {
            Some(p) => Some(p.number),
            None => Some(info.best_number),
        },
        BlockNumberOrTag::Finalized => info.last_finalized,
        BlockNumberOrTag::Safe => info.safe_finalized,
        BlockNumberOrTag::Earliest => Some(0),
    }
}

} // verus!
