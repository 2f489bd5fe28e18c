//! The library's nodes, as the graph sees them: their identifying state and
//! port layout. The per-sample processing of these nodes is floating point
//! and is not part of this library.
use crate::ports::{audio_ports, positional_layout, Ports};
use crate::resources::{AudioInputKey, DelayLineKey, ExternalBufferKey};
use std::time::Duration;
use vstd::prelude::*;

verus! {

fn copy_keys<T: Copy>(v: &Vec<T>) -> (r: Vec<T>)
    ensures
        r@ == v@,
{
    let mut r: Vec<T> = Vec::new();
    let mut k: usize = 0;
    while k < v.len()
        invariant
            k <= v@.len(),
            r@ == v@.take(k as int),
        decreases v@.len() - k,
    {
        r.push(v[k]);
        k = k + 1;
        assert(r@ =~= v@.take(k as int));
    }
    assert(v@.take(k as int) =~= v@);
    r
}

/// One xorshift32 step.
pub open spec fn xorshift32(s: u32) -> u32 {
    let a = s ^ (s << 13u32);
    let b = a ^ (a >> 17u32);
    b ^ (b << 5u32)
}

/// The state a fresh noise generator starts from.
pub const NOISE_SEED: u32 = 0xBAADF00D;

/// A basic white noise generator (xorshift32).
pub struct Noise {
    state: u32,
    ports: Ports,
}

impl Noise {
    /// The generator's current state.
    pub closed spec fn state(&self) -> u32 {
        self.state
    }

    pub closed spec fn layout(&self) -> Ports {
        self.ports
    }

    /// A generator with one audio output, seeded with the fixed seed.
    pub fn new() -> (r: Self)
        ensures
            r.state() == NOISE_SEED,
            positional_layout(r.layout(), 0, 1),
    {
        Self { state: NOISE_SEED, ports: audio_ports(0, 1) }
    }

    /// Yields the next pseudo-random u32 value.
    pub fn next_val(&mut self) -> (r: u32)
        ensures
            r == xorshift32(old(self).state()),
            final(self).state() == r,
            final(self).layout() == old(self).layout(),
    {
        self.state = self.state ^ (self.state << 13);
        self.state = self.state ^ (self.state >> 17);
        self.state = self.state ^ (self.state << 5);
        self.state
    }

    pub fn ports(&self) -> (r: &Ports)
        ensures
            *r == self.layout(),
    {
        &self.ports
    }

    pub fn duplicate(&self) -> (r: Self)
        ensures
            r.state() == self.state(),
            r.layout()@ == self.layout()@,
    {
        Self { state: self.state, ports: self.ports.duplicate() }
    }
}

/// A nonzero xorshift state stays nonzero, so the generator never stalls.
pub proof fn lemma_xorshift_nonzero(s: u32)
    requires
        s != 0,
    ensures
        xorshift32(s) != 0,
{
    assert(s != 0 ==> ((s ^ (s << 13u32)) ^ ((s ^ (s << 13u32)) >> 17u32)) ^ (((s ^ (s
        << 13u32)) ^ ((s ^ (s << 13u32)) >> 17u32)) << 5u32) != 0) by (bit_vector);
}

/// The state of a fresh generator after `k` calls of `next_val`: the seed
/// stepped `k` times. Every fresh generator follows this same sequence.
pub open spec fn noise_state_after(k: nat) -> u32
    decreases k,
{
    if k == 0 {
        NOISE_SEED
    } else {
        xorshift32(noise_state_after((k - 1) as nat))
    }
}

/// A fresh generator never yields zero: every value of its sequence is
/// nonzero.
pub proof fn lemma_noise_sequence_nonzero(k: nat)
    ensures
        noise_state_after(k) != 0,
    decreases k,
{
    if k > 0 {
        lemma_noise_sequence_nonzero((k - 1) as nat);
        lemma_xorshift_nonzero(noise_state_after((k - 1) as nat));
    }
}

/// A mono -> N mixer with unity gain.
pub struct MonoFanOut {
    ports: Ports,
}

impl MonoFanOut {
    pub closed spec fn layout(&self) -> Ports {
        self.ports
    }

    /// One audio input, `chans_out` audio outputs.
    pub fn new(chans_out: usize) -> (r: Self)
        ensures
            positional_layout(r.layout(), 1, chans_out as nat),
    {
        Self { ports: audio_ports(1, chans_out) }
    }

    pub fn ports(&self) -> (r: &Ports)
        ensures
            *r == self.layout(),
    {
        &self.ports
    }

    pub fn duplicate(&self) -> (r: Self)
        ensures
            r.layout()@ == self.layout()@,
    {
        Self { ports: self.ports.duplicate() }
    }
}

/// Mixes `tracks` tracks of `chans_per_track` channels down to one track.
/// The per-track gains are sample-processing state and are not held here.
pub struct TrackMixer {
    chans_per_track: usize,
    tracks: usize,
    ports: Ports,
}

impl TrackMixer {
    pub closed spec fn layout(&self) -> Ports {
        self.ports
    }

    pub closed spec fn chans_per_track(&self) -> nat {
        self.chans_per_track as nat
    }

    pub closed spec fn tracks(&self) -> nat {
        self.tracks as nat
    }

    /// `chans_per_track * tracks` audio inputs, `chans_per_track` outputs.
    pub fn new(chans_per_track: usize, tracks: usize) -> (r: Self)
        requires
            chans_per_track * tracks <= usize::MAX,
        ensures
            r.chans_per_track() == chans_per_track,
            r.tracks() == tracks,
            positional_layout(r.layout(), (chans_per_track * tracks) as nat, chans_per_track as nat),
    {
        Self {
            chans_per_track,
            tracks,
            ports: audio_ports(chans_per_track * tracks, chans_per_track),
        }
    }

    pub fn ports(&self) -> (r: &Ports)
        ensures
            *r == self.layout(),
    {
        &self.ports
    }

    pub fn duplicate(&self) -> (r: Self)
        ensures
            r.chans_per_track() == self.chans_per_track(),
            r.tracks() == self.tracks(),
            r.layout()@ == self.layout()@,
    {
        Self {
            chans_per_track: self.chans_per_track,
            tracks: self.tracks,
            ports: self.ports.duplicate(),
        }
    }
}

/// A Householder reflection mixer over `chans` channels.
pub struct HouseholderMixer {
    chans: usize,
    ports: Ports,
}

impl HouseholderMixer {
    pub closed spec fn layout(&self) -> Ports {
        self.ports
    }

    pub closed spec fn chans(&self) -> nat {
        self.chans as nat
    }

    /// `chans` audio inputs and outputs.
    pub fn new(chans: usize) -> (r: Self)
        ensures
            r.chans() == chans,
            positional_layout(r.layout(), chans as nat, chans as nat),
    {
        Self { chans, ports: audio_ports(chans, chans) }
    }

    pub fn ports(&self) -> (r: &Ports)
        ensures
            *r == self.layout(),
    {
        &self.ports
    }

    pub fn duplicate(&self) -> (r: Self)
        ensures
            r.chans() == self.chans(),
            r.layout()@ == self.layout()@,
    {
        Self { chans: self.chans, ports: self.ports.duplicate() }
    }
}

/// Copies an external audio input into the graph.
pub struct ExternalInput {
    key: AudioInputKey,
    ports: Ports,
}

impl ExternalInput {
    pub closed spec fn layout(&self) -> Ports {
        self.ports
    }

    pub closed spec fn key(&self) -> AudioInputKey {
        self.key
    }

    /// `chans` audio outputs fed from the input `key`.
    pub fn new(chans: usize, key: AudioInputKey) -> (r: Self)
        ensures
            r.key() == key,
            positional_layout(r.layout(), 0, chans as nat),
    {
        Self { key, ports: audio_ports(0, chans) }
    }

    pub fn ports(&self) -> (r: &Ports)
        ensures
            *r == self.layout(),
    {
        &self.ports
    }

    pub fn duplicate(&self) -> (r: Self)
        ensures
            r.key() == self.key(),
            r.layout()@ == self.layout()@,
    {
        Self { key: self.key, ports: self.ports.duplicate() }
    }
}

/// Writes each input channel into its delay line.
pub struct DelayWrite {
    delay_line_keys: Vec<DelayLineKey>,
    ports: Ports,
}

impl DelayWrite {
    pub closed spec fn layout(&self) -> Ports {
        self.ports
    }

    pub closed spec fn delay_line_keys(&self) -> Seq<DelayLineKey> {
        self.delay_line_keys@
    }

    /// `chans` audio inputs, and as many outputs for graph ordering.
    pub fn new(delay_line_keys: Vec<DelayLineKey>, chans: usize) -> (r: Self)
        ensures
            r.delay_line_keys() == delay_line_keys@,
            positional_layout(r.layout(), chans as nat, chans as nat),
    {
        Self { delay_line_keys, ports: audio_ports(chans, chans) }
    }

    pub fn ports(&self) -> (r: &Ports)
        ensures
            *r == self.layout(),
    {
        &self.ports
    }

    pub fn duplicate(&self) -> (r: Self)
        ensures
            r.delay_line_keys() == self.delay_line_keys(),
            r.layout()@ == self.layout()@,
    {
        Self { delay_line_keys: copy_keys(&self.delay_line_keys), ports: self.ports.duplicate() }
    }
}

/// Interpolation quality used when reading from the delay line.
#[derive(Clone, Copy, Debug, PartialEq, Eq, Default)]
pub enum DelayQuality {
    /// Cheaper Linear Interpolation
    Linear,
    /// More Expensive Cubic Hermite Interpolation
    #[default]
    Cubic,
}

/// Reads each channel's delay line `len` behind the write head.
pub struct DelayRead {
    delay_line_keys: Vec<DelayLineKey>,
    len: Duration,
    quality: DelayQuality,
    ports: Ports,
}

impl DelayRead {
    pub closed spec fn layout(&self) -> Ports {
        self.ports
    }

    pub closed spec fn delay_line_keys(&self) -> Seq<DelayLineKey> {
        self.delay_line_keys@
    }

    pub closed spec fn quality(&self) -> DelayQuality {
        self.quality
    }

    pub closed spec fn len(&self) -> Duration {
        self.len
    }

    /// `chans` audio outputs.
    pub fn new(chans: usize, delay_line_keys: Vec<DelayLineKey>, len: Duration, quality: DelayQuality) -> (r: Self)
        ensures
            r.delay_line_keys() == delay_line_keys@,
            r.len() == len,
            r.quality() == quality,
            positional_layout(r.layout(), 0, chans as nat),
    {
        Self { delay_line_keys, len, quality, ports: audio_ports(0, chans) }
    }

    pub fn ports(&self) -> (r: &Ports)
        ensures
            *r == self.layout(),
    {
        &self.ports
    }

    pub fn duplicate(&self) -> (r: Self)
        ensures
            r.delay_line_keys() == self.delay_line_keys(),
            r.len() == self.len(),
            r.quality() == self.quality(),
            r.layout()@ == self.layout()@,
    {
        Self {
            delay_line_keys: copy_keys(&self.delay_line_keys),
            len: self.len,
            quality: self.quality,
            ports: self.ports.duplicate(),
        }
    }
}

/// Plays back an external sample buffer, looping.
pub struct Sampler {
    sample_key: ExternalBufferKey,
    read_pos: usize,
    is_looping: bool,
    ports: Ports,
}

impl Sampler {
    pub closed spec fn layout(&self) -> Ports {
        self.ports
    }

    pub closed spec fn sample_key(&self) -> ExternalBufferKey {
        self.sample_key
    }

    pub closed spec fn read_pos(&self) -> nat {
        self.read_pos as nat
    }

    pub closed spec fn is_looping(&self) -> bool {
        self.is_looping
    }

    /// `chans` audio outputs, reading from the start and looping.
    pub fn new(sample_key: ExternalBufferKey, chans: usize) -> (r: Self)
        ensures
            r.sample_key() == sample_key,
            r.read_pos() == 0,
            r.is_looping(),
            positional_layout(r.layout(), 0, chans as nat),
    {
        Self { sample_key, read_pos: 0, is_looping: true, ports: audio_ports(0, chans) }
    }

    pub fn ports(&self) -> (r: &Ports)
        ensures
            *r == self.layout(),
    {
        &self.ports
    }

    pub fn duplicate(&self) -> (r: Self)
        ensures
            r.sample_key() == self.sample_key(),
            r.read_pos() == self.read_pos(),
            r.is_looping() == self.is_looping(),
            r.layout()@ == self.layout()@,
    {
        Self {
            sample_key: self.sample_key,
            read_pos: self.read_pos,
            is_looping: self.is_looping,
            ports: self.ports.duplicate(),
        }
    }
}

} // verus!

verus! {

/// Polynomial order used for the sine approximation: higher is more
/// spectrally pure, lower is cheaper.
#[derive(Clone, Copy, PartialEq, Eq, Debug, Default, Structural)]
pub enum Quality {
    /// order-3
    Low,
    /// order-5
    Med,
    /// order-7
    #[default]
    High,
}

/// The quality a param string names.
pub open spec fn spec_quality_from_str(s: Seq<char>) -> Option<Quality> {
    if s == "low"@ || s == "3"@ {
        Some(Quality::Low)
    } else if s == "med"@ || s == "medium"@ || s == "5"@ {
        Some(Quality::Med)
    } else if s == "high"@ || s == "7"@ {
        Some(Quality::High)
    } else {
        None
    }
}

impl Quality {
    /// Parse a quality by name or by polynomial order.
    pub fn from_str(s: &str) -> (r: Option<Self>)
        ensures
            r == spec_quality_from_str(s@),
    {
        if crate::text::str_eq(s, "low") || crate::text::str_eq(s, "3") {
            Some(Quality::Low)
        } else if crate::text::str_eq(s, "med") || crate::text::str_eq(s, "medium")
            || crate::text::str_eq(s, "5") {
            Some(Quality::Med)
        } else if crate::text::str_eq(s, "high") || crate::text::str_eq(s, "7") {
            Some(Quality::High)
        } else {
            None
        }
    }
}

} // verus!
