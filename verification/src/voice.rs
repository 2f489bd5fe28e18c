//! Voice allocation for polyphonic MIDI: which voice a note-on takes, and
//! which voice a note-off releases.
use vstd::prelude::*;

verus! {

/// Whether a voice is sounding.
#[derive(Clone, Copy, PartialEq, Eq, Debug, Default, Structural)]
pub enum VoiceStateKind {
    #[default]
    Idle,
    Active,
}

/// One voice: its state and the note and velocity it last received.
#[derive(Clone, Copy, PartialEq, Eq, Debug, Default, Structural)]
pub struct VoiceState {
    pub kind: VoiceStateKind,
    pub note: u8,
    pub velocity: u8,
}

/// A fixed set of voices.
pub struct VoiceAllocator {
    voices: Vec<VoiceState>,
}

/// The voice a note-on takes: scanning in order, an idle voice always
/// becomes the candidate, and a sounding voice becomes it when it is softer
/// than the current candidate (or there is none yet).
pub open spec fn steal_choice(voices: Seq<VoiceState>) -> Option<int>
    decreases voices.len(),
{
    if voices.len() == 0 {
        None
    } else {
        let i = voices.len() - 1;
        let v = voices[i];
        let candidate = steal_choice(voices.drop_last());
        if v.kind == VoiceStateKind::Idle {
            Some(i)
        } else {
            match candidate {
                Some(j) => if v.velocity < voices[j].velocity {
                    Some(i)
                } else {
                    Some(j)
                },
                None => Some(i),
            }
        }
    }
}

/// The first voice holding `note`, sounding or not.
pub open spec fn first_with_note(voices: Seq<VoiceState>, note: u8) -> Option<int> {
    if exists|i: int| 0 <= i < voices.len() && (#[trigger] voices[i]).note == note {
        Some(
            choose|i: int|
                0 <= i < voices.len() && (#[trigger] voices[i]).note == note && forall|j: int|
                    0 <= j < i ==> (#[trigger] voices[j]).note != note,
        )
    } else {
        None
    }
}

proof fn lemma_steal_in_range(voices: Seq<VoiceState>)
    ensures
        steal_choice(voices) is Some <==> voices.len() > 0,
        steal_choice(voices) matches Some(i) ==> 0 <= i < voices.len(),
    decreases voices.len(),
{
    if voices.len() > 0 {
        lemma_steal_in_range(voices.drop_last());
    }
}

/// Every voice after `r` and before `n` is sounding and no softer than voice `r`.
pub open spec fn later_voices_sounding_no_softer(voices: Seq<VoiceState>, r: int, n: int) -> bool {
    forall|j: int|
        r < j < n ==> (#[trigger] voices[j]).kind == VoiceStateKind::Active
            && voices[j].velocity >= voices[r].velocity
}

/// Every voice before `r` that is followed only by sounding voices up to and
/// including `r` is strictly louder than voice `r`.
pub open spec fn earlier_run_louder(voices: Seq<VoiceState>, r: int) -> bool {
    forall|j: int|
        0 <= j < r && #[trigger] all_sounding_between(voices, j, r) ==> voices[j].velocity > voices[r].velocity
}

/// Every voice after `j` up to and including `r` is sounding.
pub open spec fn all_sounding_between(voices: Seq<VoiceState>, j: int, r: int) -> bool {
    forall|k: int| j < k <= r ==> (#[trigger] voices[k]).kind == VoiceStateKind::Active
}

proof fn lemma_quietest_prefix(voices: Seq<VoiceState>, c: int)
    requires
        voices.len() > 0,
        0 <= c < voices.len() - 1,
        later_voices_sounding_no_softer(voices.drop_last(), c, voices.len() - 1),
        earlier_run_louder(voices.drop_last(), c),
    ensures
        later_voices_sounding_no_softer(voices, c, voices.len() - 1),
        earlier_run_louder(voices, c),
{
    let prefix = voices.drop_last();
    assert forall|j: int| c < j < voices.len() - 1 implies (#[trigger] voices[j]).kind == VoiceStateKind::Active
        && voices[j].velocity >= voices[c].velocity by {
        assert(prefix[j] == voices[j]);
    }
    assert forall|j: int|
        0 <= j < c && #[trigger] all_sounding_between(voices, j, c) implies voices[j].velocity > voices[c].velocity by {
        assert forall|k: int| j < k <= c implies (#[trigger] prefix[k]).kind == VoiceStateKind::Active by {
            assert(prefix[k] == voices[k]);
        }
        assert(all_sounding_between(prefix, j, c));
        assert(prefix[j] == voices[j]);
    }
}

proof fn lemma_quietest_replace(voices: Seq<VoiceState>, c: int)
    requires
        voices.len() > 0,
        0 <= c < voices.len() - 1,
        voices[voices.len() - 1].velocity < voices[c].velocity,
        later_voices_sounding_no_softer(voices, c, voices.len() - 1),
        earlier_run_louder(voices, c),
    ensures
        later_voices_sounding_no_softer(voices, voices.len() - 1, voices.len() as int),
        earlier_run_louder(voices, voices.len() - 1),
{
    let r = voices.len() - 1;
    assert forall|j: int| 0 <= j < r && #[trigger] all_sounding_between(voices, j, r)
        implies voices[j].velocity > voices[r].velocity by {
        if j < c {
            assert(all_sounding_between(voices, j, c));
        }
    }
}

proof fn lemma_quietest_keep(voices: Seq<VoiceState>, c: int)
    requires
        voices.len() > 0,
        0 <= c < voices.len() - 1,
        voices[voices.len() - 1].kind == VoiceStateKind::Active,
        voices[voices.len() - 1].velocity >= voices[c].velocity,
        later_voices_sounding_no_softer(voices, c, voices.len() - 1),
    ensures
        later_voices_sounding_no_softer(voices, c, voices.len() as int),
{
}

/// The voice a note-on takes, stated over the voices: every voice after it
/// is sounding and no softer, and each voice before it that only sounding
/// voices separate from it is strictly louder.
pub proof fn lemma_steal_choice_quietest(voices: Seq<VoiceState>)
    requires
        voices.len() > 0,
    ensures
        steal_choice(voices) is Some,
        0 <= steal_choice(voices)->Some_0 < voices.len(),
        later_voices_sounding_no_softer(voices, steal_choice(voices)->Some_0, voices.len() as int),
        earlier_run_louder(voices, steal_choice(voices)->Some_0),
    decreases voices.len(),
{
    lemma_steal_in_range(voices);
    let i = voices.len() - 1;
    let prefix = voices.drop_last();
    if voices[i].kind == VoiceStateKind::Idle {
        assert forall|j: int| 0 <= j < i && #[trigger] all_sounding_between(voices, j, i)
            implies voices[j].velocity > voices[i].velocity by {
            assert(voices[i].kind == VoiceStateKind::Active);
        }
    } else if prefix.len() > 0 {
        lemma_steal_choice_quietest(prefix);
        let c = steal_choice(prefix)->Some_0;
        lemma_quietest_prefix(voices, c);
        if voices[i].velocity < voices[c].velocity {
            lemma_quietest_replace(voices, c);
        } else {
            lemma_quietest_keep(voices, c);
        }
    }
}

/// When no voice is idle, a note-on takes one of the softest voices.
pub proof fn lemma_steal_choice_all_sounding(voices: Seq<VoiceState>)
    requires
        voices.len() > 0,
        forall|j: int| 0 <= j < voices.len() ==> (#[trigger] voices[j]).kind == VoiceStateKind::Active,
    ensures
        steal_choice(voices) is Some,
        forall|j: int| 0 <= j < voices.len()
            ==> voices[steal_choice(voices)->Some_0].velocity <= (#[trigger] voices[j]).velocity,
{
    lemma_steal_choice_quietest(voices);
    let r = steal_choice(voices)->Some_0;
    assert forall|j: int| 0 <= j < voices.len() implies voices[r].velocity <= (#[trigger] voices[j]).velocity by {
        if j < r {
            assert(all_sounding_between(voices, j, r));
            assert(earlier_run_louder(voices, r));
        } else if j > r {
            assert(later_voices_sounding_no_softer(voices, r, voices.len() as int));
        }
    }
}

/// When some voice is idle and no idle voice is louder than a sounding one
/// (as with fresh voices, whose velocity is zero), a note-on takes an idle
/// voice.
pub proof fn lemma_steal_choice_prefers_idle(voices: Seq<VoiceState>)
    requires
        exists|j: int| 0 <= j < voices.len() && (#[trigger] voices[j]).kind == VoiceStateKind::Idle,
        forall|j: int, k: int|
            0 <= j < voices.len() && 0 <= k < voices.len() && (#[trigger] voices[j]).kind == VoiceStateKind::Idle
                && (#[trigger] voices[k]).kind == VoiceStateKind::Active ==> voices[j].velocity <= voices[k].velocity,
    ensures
        steal_choice(voices) is Some,
        voices[steal_choice(voices)->Some_0].kind == VoiceStateKind::Idle,
    decreases voices.len(),
{
    lemma_steal_in_range(voices);
    let i = voices.len() - 1;
    let prefix = voices.drop_last();
    if voices[i].kind != VoiceStateKind::Idle {
        let m = choose|j: int| 0 <= j < voices.len() && (#[trigger] voices[j]).kind == VoiceStateKind::Idle;
        assert(prefix[m].kind == VoiceStateKind::Idle);
        assert forall|j: int, k: int|
            0 <= j < prefix.len() && 0 <= k < prefix.len() && (#[trigger] prefix[j]).kind == VoiceStateKind::Idle
                && (#[trigger] prefix[k]).kind == VoiceStateKind::Active implies prefix[j].velocity <= prefix[k].velocity by {
            assert(voices[j].kind == VoiceStateKind::Idle && voices[k].kind == VoiceStateKind::Active);
        }
        lemma_steal_choice_prefers_idle(prefix);
        lemma_steal_in_range(prefix);
        let c = steal_choice(prefix)->Some_0;
        assert(voices[c].kind == VoiceStateKind::Idle);
        assert(voices[c].velocity <= voices[i].velocity);
    }
}

impl VoiceAllocator {
    /// The voices, in order.
    pub closed spec fn voices(&self) -> Seq<VoiceState> {
        self.voices@
    }

    /// `capacity` idle voices.
    pub fn with_capacity(capacity: usize) -> (a: Self)
        ensures
            a.voices() == Seq::new(
                capacity as nat,
                |_i: int| VoiceState { kind: VoiceStateKind::Idle, note: 0, velocity: 0 },
            ),
    {
        let mut voices: Vec<VoiceState> = Vec::new();
        let mut k: usize = 0;
        while k < capacity
            invariant
                k <= capacity,
                voices@ == Seq::new(
                    k as nat,
                    |_i: int| VoiceState { kind: VoiceStateKind::Idle, note: 0, velocity: 0 },
                ),
            decreases capacity - k,
        {
            voices.push(VoiceState { kind: VoiceStateKind::Idle, note: 0, velocity: 0 });
            k = k + 1;
            assert(voices@ =~= Seq::new(
                k as nat,
                |_i: int| VoiceState { kind: VoiceStateKind::Idle, note: 0, velocity: 0 },
            ));
        }
        VoiceAllocator { voices }
    }

    /// The index of the voice a note-on takes; `None` when there are no voices.
    pub fn steal_voice(&self) -> (r: Option<usize>)
        ensures
            r matches Some(i) ==> steal_choice(self.voices()) == Some(i as int),
            r is None <==> steal_choice(self.voices()) is None,
            r matches Some(i) ==> later_voices_sounding_no_softer(self.voices(), i as int, self.voices().len() as int),
            r matches Some(i) ==> earlier_run_louder(self.voices(), i as int),
            r matches Some(i) ==> ((forall|j: int| 0 <= j < self.voices().len() ==> (#[trigger] self.voices()[j]).kind == VoiceStateKind::Active)
                ==> forall|j: int| 0 <= j < self.voices().len() ==> self.voices()[i as int].velocity <= (#[trigger] self.voices()[j]).velocity),
            r matches Some(i) ==> ((exists|j: int| 0 <= j < self.voices().len() && (#[trigger] self.voices()[j]).kind == VoiceStateKind::Idle)
                && (forall|j: int, k: int|
                    0 <= j < self.voices().len() && 0 <= k < self.voices().len() && (#[trigger] self.voices()[j]).kind == VoiceStateKind::Idle
                        && (#[trigger] self.voices()[k]).kind == VoiceStateKind::Active ==> self.voices()[j].velocity <= self.voices()[k].velocity)
                ==> self.voices()[i as int].kind == VoiceStateKind::Idle),
    {
        let mut candidate: Option<usize> = None;
        let mut i: usize = 0;
        while i < self.voices.len()
            invariant
                i <= self.voices@.len(),
                match candidate {
                    Some(c) => steal_choice(self.voices@.take(i as int)) == Some(c as int),
                    None => steal_choice(self.voices@.take(i as int)) is None,
                },
            decreases self.voices@.len() - i,
        {
            let voice = self.voices[i];
            proof {
                assert(self.voices@.take(i + 1).drop_last() =~= self.voices@.take(i as int));
                lemma_steal_in_range(self.voices@.take(i as int));
            }
            if voice.kind == VoiceStateKind::Idle {
                candidate = Some(i);
            } else {
                match candidate {
                    Some(c) => {
                        assert(self.voices@.take(i + 1)[c as int] == self.voices@[c as int]);
                        if voice.velocity < self.voices[c].velocity {
                            candidate = Some(i);
                        }
                    },
                    None => {
                        candidate = Some(i);
                    },
                }
            }
            i = i + 1;
        }
        assert(self.voices@.take(i as int) =~= self.voices@);
        proof {
            if self.voices@.len() > 0 {
                lemma_steal_choice_quietest(self.voices@);
                if forall|j: int| 0 <= j < self.voices@.len() ==> (#[trigger] self.voices@[j]).kind == VoiceStateKind::Active {
                    lemma_steal_choice_all_sounding(self.voices@);
                }
                if (exists|j: int| 0 <= j < self.voices@.len() && (#[trigger] self.voices@[j]).kind == VoiceStateKind::Idle)
                    && (forall|j: int, k: int|
                        0 <= j < self.voices@.len() && 0 <= k < self.voices@.len()
                            && (#[trigger] self.voices@[j]).kind == VoiceStateKind::Idle
                            && (#[trigger] self.voices@[k]).kind == VoiceStateKind::Active
                            ==> self.voices@[j].velocity <= self.voices@[k].velocity) {
                    lemma_steal_choice_prefers_idle(self.voices@);
                }
            }
        }
        candidate
    }

    /// Release the first voice holding `note`, recording the release velocity.
    pub fn on_note_off(&mut self, note: u8, velocity: u8) -> (r: Option<usize>)
        ensures
            r matches Some(i) ==> first_with_note(old(self).voices(), note) == Some(i as int)
                && final(self).voices() == old(self).voices().update(
                i as int,
                VoiceState { kind: VoiceStateKind::Idle, note, velocity },
            ),
            r is None <==> first_with_note(old(self).voices(), note) is None,
            r is None ==> final(self).voices() == old(self).voices(),
    {
        let mut i: usize = 0;
        while i < self.voices.len()
            invariant
                self.voices@ == old(self).voices@,
                i <= self.voices@.len(),
                forall|j: int| 0 <= j < i ==> (#[trigger] self.voices@[j]).note != note,
            decreases self.voices@.len() - i,
        {
            if self.voices[i].note == note {
                proof {
                    let w = first_with_note(old(self).voices@, note);
                    assert(old(self).voices@[i as int].note == note);
                    let k = w->Some_0;
                    if k > i {
                        assert(old(self).voices@[i as int].note != note);
                    }
                }
                self.voices.set(i, VoiceState { kind: VoiceStateKind::Idle, note, velocity });
                return Some(i);
            }
            i = i + 1;
        }
        None
    }

    /// Give `note` to the voice `steal_voice` picks.
    pub fn on_note_on(&mut self, note: u8, velocity: u8) -> (r: Option<usize>)
        ensures
            r is Some <==> old(self).voices().len() > 0,
            r matches Some(i) ==> steal_choice(old(self).voices()) == Some(i as int)
                && final(self).voices() == old(self).voices().update(
                i as int,
                VoiceState { kind: VoiceStateKind::Active, note, velocity },
            ),
            r is None ==> final(self).voices() == old(self).voices(),
            r matches Some(i) ==> later_voices_sounding_no_softer(old(self).voices(), i as int, old(self).voices().len() as int),
            r matches Some(i) ==> earlier_run_louder(old(self).voices(), i as int),
            r matches Some(i) ==> ((forall|j: int| 0 <= j < old(self).voices().len() ==> (#[trigger] old(self).voices()[j]).kind == VoiceStateKind::Active)
                ==> forall|j: int| 0 <= j < old(self).voices().len() ==> old(self).voices()[i as int].velocity <= (#[trigger] old(self).voices()[j]).velocity),
            r matches Some(i) ==> ((exists|j: int| 0 <= j < old(self).voices().len() && (#[trigger] old(self).voices()[j]).kind == VoiceStateKind::Idle)
                && (forall|j: int, k: int|
                    0 <= j < old(self).voices().len() && 0 <= k < old(self).voices().len() && (#[trigger] old(self).voices()[j]).kind == VoiceStateKind::Idle
                        && (#[trigger] old(self).voices()[k]).kind == VoiceStateKind::Active ==> old(self).voices()[j].velocity <= old(self).voices()[k].velocity)
                ==> old(self).voices()[i as int].kind == VoiceStateKind::Idle),
    {
        proof {
            lemma_steal_in_range(self.voices@);
        }
        match self.steal_voice() {
            Some(i) => {
                self.voices.set(i, VoiceState { kind: VoiceStateKind::Active, note, velocity });
                Some(i)
            },
            None => None,
        }
    }
}

} // verus!
