use vstd::prelude::*;

verus! {

/// Number of samples one SIMD vector holds.
pub const LANES: usize = 8;

/// The audio block size: the interior graph rate in samples per block.
#[derive(Clone, Copy, Debug, PartialEq, Eq, Structural)]
pub enum BlockSize {
    Block64,
    Block128,
    Block256,
    Block512,
    Block1024,
    Block2048,
    Block4096,
}

/// The number of samples a block size stands for.
pub open spec fn block_samples(b: BlockSize) -> usize {
    match b {
        BlockSize::Block64 => 64,
        BlockSize::Block128 => 128,
        BlockSize::Block256 => 256,
        BlockSize::Block512 => 512,
        BlockSize::Block1024 => 1024,
        BlockSize::Block2048 => 2048,
        BlockSize::Block4096 => 4096,
    }
}

impl BlockSize {
    pub fn to_usize(&self) -> (r: usize)
        ensures
            r == block_samples(*self),
    {
        match self {
            BlockSize::Block64 => 64,
            BlockSize::Block128 => 128,
            BlockSize::Block256 => 256,
            BlockSize::Block512 => 512,
            BlockSize::Block1024 => 1024,
            BlockSize::Block2048 => 2048,
            BlockSize::Block4096 => 4096,
        }
    }
}

/// The config that determines the interior application sample rate, the
/// graph's block size and channel count, and the initial graph capacity.
#[derive(Clone, Copy, Debug, PartialEq)]
pub struct Config {
    pub sample_rate: usize,
    pub block_size: usize,
    pub channels: usize,
    pub initial_graph_capacity: usize,
}

impl Config {
    pub fn new(sr: usize, block_size: BlockSize, channels: usize, initial_graph_capacity: usize) -> (c: Self)
        ensures
            c.sample_rate == sr,
            c.block_size == block_samples(block_size),
            c.channels == channels,
            c.initial_graph_capacity == initial_graph_capacity,
            c.block_size % LANES == 0,
    {
        let block_size = block_size.to_usize();
        Self { sample_rate: sr, block_size, channels, initial_graph_capacity }
    }

    /// A config is valid when its block size is a whole number of SIMD vectors.
    pub fn validate(&self)
        requires
            self.block_size % LANES == 0,
    {
    }
}

} // verus!
