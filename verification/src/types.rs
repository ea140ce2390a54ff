//! Plain-value models of the domain data the caches hold: fixed-width
//! content hashes, finalized-block metadata, and compiled contract
//! artifacts.

use crate::cache::ByteSized;
use crate::cache::CacheKey;
use vstd::prelude::*;

verus! {

/// Number of bytes a resident block-metadata entry is accounted for.
pub const CACHE_BLOCK_SIZE: u64 = 96;

/// A 256-bit content hash, held as four 64-bit words. Identifies contract
/// bytecode and compiled artifacts.
#[derive(Clone, Copy, Debug, PartialEq, Eq, Structural)]
pub struct CryptoHash {
    pub w0: u64,
    pub w1: u64,
    pub w2: u64,
    pub w3: u64,
}

impl CacheKey for CryptoHash {
    fn key_eq(&self, other: &Self) -> (b: bool)
        ensures
            b <==> *self == *other,
    {
        self.w0 == other.w0 && self.w1 == other.w1 && self.w2 == other.w2 && self.w3 == other.w3
    }
}

/// The metadata of one finalized block, as the block cache stores it.
#[derive(Clone, Copy, Debug, PartialEq, Eq, Structural)]
pub struct CacheBlock {
    pub block_hash: CryptoHash,
    pub block_height: u64,
    pub block_timestamp: u64,
    pub gas_price: u64,
    pub latest_protocol_version: u64,
    pub chunks_included: u64,
    pub state_root: CryptoHash,
}

impl ByteSized for CacheBlock {
    open spec fn size_spec(&self) -> u64 {
        CACHE_BLOCK_SIZE
    }

    fn size_bytes(&self) -> (r: u64)
        ensures
            r == self.size_spec(),
    {
        CACHE_BLOCK_SIZE
    }
}

impl ByteSized for Vec<u8> {
    open spec fn size_spec(&self) -> u64 {
        self@.len() as u64
    }

    fn size_bytes(&self) -> (r: u64)
        ensures
            r == self.size_spec(),
    {
        self.len() as u64
    }
}

/// A compiled contract artifact: the output of compiling on-chain bytecode,
/// cached by the hash of that bytecode to avoid recompilation.
#[derive(Debug, PartialEq, Eq)]
pub struct CompiledContract {
    pub code: Vec<u8>,
}

impl View for CompiledContract {
    type V = Seq<u8>;

    open spec fn view(&self) -> Seq<u8> {
        self.code@
    }
}

impl ByteSized for CompiledContract {
    open spec fn size_spec(&self) -> u64 {
        self.code@.len() as u64
    }

    fn size_bytes(&self) -> (r: u64)
        ensures
            r == self.size_spec(),
    {
        self.code.len() as u64
    }
}

impl CompiledContract {
    /// A byte-for-byte copy of this artifact.
    pub fn duplicate(&self) -> (r: Self)
        ensures
            r@ == self@,
    {
        let n = self.code.len();
        let mut code: Vec<u8> = Vec::new();
        let mut i: usize = 0;
        while i < n
            invariant
                i <= n,
                n == self.code@.len(),
                code@ == self.code@.take(i as int),
            decreases n - i,
        {
            code.push(self.code[i]);
            proof {
                assert(code@ =~= self.code@.take(i + 1));
            }
            i += 1;
        }
        proof {
            assert(code@ =~= self.code@);
        }
        CompiledContract { code }
    }
}

} // verus!
