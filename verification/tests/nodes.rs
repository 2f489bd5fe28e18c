use legato::config::{BlockSize, Config, LANES};
use legato::harness::{get_node_test_harness_stereo, get_node_test_harness_stereo_4096};
use legato::node::{DynNode, LegatoNode};
use legato::nodes::{
    DelayQuality, DelayRead, DelayWrite, ExternalInput, HouseholderMixer, MonoFanOut, Noise, Quality,
    Sampler, TrackMixer, NOISE_SEED,
};
use legato::ports::Ports;
use legato::resources::{AudioInputKey, DelayLineKey, ExternalBufferKey};
use legato::runtime::NodeKey;
use legato::voice::{VoiceAllocator, VoiceState, VoiceStateKind};
use std::time::Duration;

#[test]
fn noise_follows_xorshift32_from_its_seed() {
    assert_eq!(NOISE_SEED, 0xBAAD_F00D);
    let mut n = Noise::new();
    assert_eq!(n.next_val(), 0x9126_193B);
    assert_eq!(n.next_val(), 0x122B_575B);
    let copy = n.duplicate();
    assert_eq!(n.next_val(), 0x60C1_6C5B);
    let mut copy = copy;
    assert_eq!(copy.next_val(), 0x60C1_6C5B);
    assert_eq!(n.ports().audio_out.len(), 1);
    assert!(n.ports().audio_in.is_empty());
}

#[test]
fn noise_never_stalls_on_zero() {
    let mut n = Noise::new();
    for _ in 0..10_000 {
        assert_ne!(n.next_val(), 0);
    }
}

#[test]
fn node_layouts() {
    let fan = MonoFanOut::new(3);
    assert_eq!((fan.ports().audio_in.len(), fan.ports().audio_out.len()), (1, 3));
    let mix = TrackMixer::new(2, 3);
    assert_eq!((mix.ports().audio_in.len(), mix.ports().audio_out.len()), (6, 2));
    let h = HouseholderMixer::new(4);
    assert_eq!((h.ports().audio_in.len(), h.ports().audio_out.len()), (4, 4));
    let e = ExternalInput::new(2, AudioInputKey(0));
    assert_eq!((e.ports().audio_in.len(), e.ports().audio_out.len()), (0, 2));
    let w = DelayWrite::new(vec![DelayLineKey(0), DelayLineKey(1)], 2);
    assert_eq!((w.ports().audio_in.len(), w.ports().audio_out.len()), (2, 2));
    let r = DelayRead::new(2, vec![DelayLineKey(0)], Duration::from_millis(10), DelayQuality::Linear);
    assert_eq!((r.ports().audio_in.len(), r.ports().audio_out.len()), (0, 2));
    let s = Sampler::new(ExternalBufferKey(3), 2);
    assert_eq!((s.ports().audio_in.len(), s.ports().audio_out.len()), (0, 2));
    assert_eq!(DelayQuality::default(), DelayQuality::Cubic);
    let copies = [fan.duplicate().ports().clone(), mix.duplicate().ports().clone(), w.duplicate().ports().clone()];
    assert_eq!(copies[1].audio_in.len(), 6);
}

#[test]
fn legato_node_wraps_a_node() {
    let ext = DynNode::External(Ports { audio_in: vec![], audio_out: vec![], control_in: vec![], control_out: vec![] });
    let mut n = LegatoNode::new("osc".to_string(), "noise".to_string(), DynNode::Noise(Noise::new()));
    assert_eq!(n.name(), "osc");
    assert_eq!(n.ports().audio_out.len(), 1);
    *n.get_node_mut() = ext;
    assert!(matches!(n.get_node(), DynNode::External(_)));
    let d = n.duplicate();
    assert_eq!(d.name, "osc");
    assert_eq!(d.node_kind, "noise");
    assert!(d.ports().audio_out.is_empty());
}

#[test]
fn quality_parses_names_and_orders() {
    assert_eq!(Quality::from_str("low"), Some(Quality::Low));
    assert_eq!(Quality::from_str("3"), Some(Quality::Low));
    assert_eq!(Quality::from_str("med"), Some(Quality::Med));
    assert_eq!(Quality::from_str("medium"), Some(Quality::Med));
    assert_eq!(Quality::from_str("5"), Some(Quality::Med));
    assert_eq!(Quality::from_str("high"), Some(Quality::High));
    assert_eq!(Quality::from_str("7"), Some(Quality::High));
    assert_eq!(Quality::from_str("ultra"), None);
    assert_eq!(Quality::from_str("LOW"), None);
    assert_eq!(Quality::default(), Quality::High);
}

#[test]
fn config_block_sizes_are_whole_vectors() {
    let sizes = [
        (BlockSize::Block64, 64),
        (BlockSize::Block128, 128),
        (BlockSize::Block256, 256),
        (BlockSize::Block512, 512),
        (BlockSize::Block1024, 1024),
        (BlockSize::Block2048, 2048),
        (BlockSize::Block4096, 4096),
    ];
    for (b, n) in sizes {
        assert_eq!(b.to_usize(), n);
        let c = Config::new(44_100, b, 2, 16);
        assert_eq!(c.block_size, n);
        assert_eq!(c.block_size % LANES, 0);
        c.validate();
    }
}

#[test]
fn voices_take_idle_then_softest() {
    let mut a = VoiceAllocator::with_capacity(2);
    // Both idle: the scan keeps the last idle voice.
    assert_eq!(a.on_note_on(60, 100), Some(1));
    assert_eq!(a.on_note_on(62, 90), Some(0));
    // All sounding: the softest is stolen.
    assert_eq!(a.steal_voice(), Some(0));
    assert_eq!(a.on_note_on(64, 80), Some(0));
    assert_eq!(a.on_note_off(60, 10), Some(1));
    assert_eq!(a.on_note_off(61, 10), None);
    assert_eq!(a.steal_voice(), Some(1));
    let mut empty = VoiceAllocator::with_capacity(0);
    assert_eq!(empty.on_note_on(60, 1), None);
    assert_eq!(empty.steal_voice(), None);
    let idle = VoiceState::default();
    assert_eq!(idle, VoiceState { kind: VoiceStateKind::Idle, note: 0, velocity: 0 });
}

#[test]
fn harness_holds_one_sink_node() {
    let rt = get_node_test_harness_stereo(DynNode::Noise(Noise::new()), 44_100, 128);
    let node = rt.get_node(&NodeKey(0)).unwrap();
    assert_eq!(node.name(), "test node");
    assert_eq!(node.node_kind, "test");
    assert!(rt.get_node(&NodeKey(1)).is_none());
    assert_eq!(rt.get_config().sample_rate, 44_100);
    assert_eq!(rt.get_config().block_size, 128);
    assert_eq!(rt.get_config().channels, 2);
    let rt = get_node_test_harness_stereo_4096(DynNode::HouseholderMixer(HouseholderMixer::new(2)));
    assert_eq!(rt.get_config().block_size, 4096);
    assert_eq!(rt.get_config().sample_rate, 48_000);
    assert_eq!(rt.get_node_ports(&NodeKey(0)).audio_in.len(), 2);
}
