use vstd::prelude::*;

verus! {

/// Names a delay line among the shared resources.
#[derive(Clone, Copy, Debug, PartialEq, Eq, Hash, Structural)]
pub struct DelayLineKey(pub usize);

/// Names an external audio input among the shared resources.
#[derive(Clone, Copy, Debug, PartialEq, Eq, Hash, Structural)]
pub struct AudioInputKey(pub usize);

/// Names an external sample buffer among the shared resources.
#[derive(Clone, Copy, Debug, PartialEq, Eq, Hash, Structural)]
pub struct ExternalBufferKey(pub usize);

/// Names a loaded sample among the shared resources.
#[derive(Clone, Copy, Debug, PartialEq, Eq, Hash, Structural)]
pub struct SampleKey(pub usize);

} // verus!
