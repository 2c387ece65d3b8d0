use vstd::prelude::*;

use crate::fixed::{clamp_spec, ONE};

verus! {

/// Phase of the envelope generator.
#[derive(Clone, Copy, Debug, PartialEq, Eq, Structural)]
pub enum EnvelopeState {
    Off,
    Attack,
    Decay,
    Sustain,
    Release,
}

impl Default for EnvelopeState {
    fn default() -> (r: EnvelopeState)
        ensures
            r == EnvelopeState::Off,
    {
        EnvelopeState::Off
    }
}

/// What an envelope is, as seen from outside: its output, phase and inputs.
pub ghost struct EnvelopeView {
    pub amplitude: int,
    pub state: EnvelopeState,
    pub attack_delta: int,
    pub decay_delta: int,
    pub sustain_level: int,
    pub release_delta: int,
    pub note_on: int,
    pub note_off: int,
    pub sample_rate: nat,
}

/// ADSR envelope generator; every value is fixed-point with `ONE` as 1.0.
#[derive(Clone, Copy, Debug)]
pub struct Envelope {
    amplitude: i32,
    sample_rate: u32,
    state: EnvelopeState,
    attack_delta: i32,
    decay_delta: i32,
    sustain_level: i32,
    release_delta: i32,
    note_on: i32,
    note_off: i32,
}

/// A trigger input fires once it reaches 1.0.
pub open spec fn armed(v: int) -> bool {
    v >= ONE as int
}

/// `x` held to the range of `i32`, as the amplitude register saturates.
pub open spec fn saturate(x: int) -> int {
    clamp_spec(x, i32::MIN as int, i32::MAX as int)
}

/// Phase after the triggers of this sample have been looked at:
/// `note_on` first, then `note_off`.
pub open spec fn triggered_state(e: EnvelopeView) -> EnvelopeState {
    if armed(e.note_off) {
        EnvelopeState::Release
    } else if armed(e.note_on) {
        EnvelopeState::Attack
    } else {
        e.state
    }
}

/// Where the decay stops: the sustain level, but never below 0.
pub open spec fn decay_floor(sustain_level: int) -> int {
    if sustain_level > 0 {
        sustain_level
    } else {
        0
    }
}

/// Amplitude and phase reached by one sample of the phase `s`.
pub open spec fn advance(e: EnvelopeView, s: EnvelopeState) -> (int, EnvelopeState) {
    match s {
        EnvelopeState::Attack => {
            let a = saturate(e.amplitude + e.attack_delta);
            if a >= ONE as int {
                (ONE as int, EnvelopeState::Decay)
            } else {
                (a, EnvelopeState::Attack)
            }
        },
        EnvelopeState::Decay => {
            let a = saturate(e.amplitude - e.decay_delta);
            if a <= decay_floor(e.sustain_level) {
                if e.sustain_level <= 0 {
                    (0, EnvelopeState::Off)
                } else {
                    (e.sustain_level, EnvelopeState::Sustain)
                }
            } else {
                (a, EnvelopeState::Decay)
            }
        },
        EnvelopeState::Sustain => (e.sustain_level, EnvelopeState::Sustain),
        EnvelopeState::Release => {
            let a = saturate(e.amplitude - e.release_delta);
            if a <= 0 {
                (0, EnvelopeState::Off)
            } else {
                (a, EnvelopeState::Release)
            }
        },
        EnvelopeState::Off => (0, EnvelopeState::Off),
    }
}

/// One sample of the envelope: triggers are consumed, then the phase runs.
pub open spec fn envelope_step(e: EnvelopeView) -> EnvelopeView {
    let r = advance(e, triggered_state(e));
    EnvelopeView {
        amplitude: r.0,
        state: r.1,
        note_on: if armed(e.note_on) { 0 } else { e.note_on },
        note_off: if armed(e.note_off) { 0 } else { e.note_off },
        ..e
    }
}

/// `n` samples of the envelope.
pub open spec fn envelope_run(e: EnvelopeView, n: nat) -> EnvelopeView
    decreases n,
{
    if n == 0 {
        e
    } else {
        envelope_run(envelope_step(e), (n - 1) as nat)
    }
}

/// A fresh envelope: silent, `Off`, every input at 0.
pub open spec fn silent_envelope() -> EnvelopeView {
    EnvelopeView {
        amplitude: 0,
        state: EnvelopeState::Off,
        attack_delta: 0,
        decay_delta: 0,
        sustain_level: 0,
        release_delta: 0,
        note_on: 0,
        note_off: 0,
        sample_rate: 0,
    }
}

/// Neither trigger is armed.
pub open spec fn quiet(e: EnvelopeView) -> bool {
    !armed(e.note_on) && !armed(e.note_off)
}

/// Attack ramp: with no trigger armed and a positive `attack_delta`, the
/// amplitude rises by exactly `attack_delta` per sample while it stays below
/// 1.0; the sample that would reach 1.0 clamps to 1.0 and enters `Decay`.
pub proof fn lemma_attack_ramp(e: EnvelopeView, k: nat)
    requires
        Envelope::fits(e),
        quiet(e),
        e.state == EnvelopeState::Attack,
        e.attack_delta > 0,
        e.amplitude + k * e.attack_delta < ONE as int,
    ensures
        envelope_run(e, k) == (EnvelopeView { amplitude: e.amplitude + k * e.attack_delta, ..e }),
        e.amplitude + (k + 1) * e.attack_delta >= ONE as int ==> envelope_step(envelope_run(e, k))
            == (EnvelopeView { amplitude: ONE as int, state: EnvelopeState::Decay, ..e }),
    decreases k,
{
    assert((k + 1) * e.attack_delta == k * e.attack_delta + e.attack_delta) by (nonlinear_arith);
    assert(k * e.attack_delta >= 0) by (nonlinear_arith)
        requires
            e.attack_delta > 0,
    ;
    if k > 0 {
        let k1 = (k - 1) as nat;
        assert(k * e.attack_delta == k1 * e.attack_delta + e.attack_delta) by (nonlinear_arith)
            requires
                k1 == k - 1,
        ;
        let e1 = envelope_step(e);
        assert(e1 == EnvelopeView { amplitude: e.amplitude + e.attack_delta, ..e });
        lemma_attack_ramp(e1, k1);
        assert(envelope_run(e, k) == envelope_run(e1, k1));
    } else {
        assert(k * e.attack_delta == 0) by (nonlinear_arith)
            requires
                k == 0,
        ;
        assert(envelope_run(e, k) == e);
    }
}

/// Decay ramp: with no trigger armed and a positive `decay_delta`, the
/// amplitude falls by exactly `decay_delta` per sample while it stays above
/// `sustain_level` (above 0 when `sustain_level` is not positive); the
/// sample that reaches it settles on `sustain_level` in `Sustain`, or on
/// exactly 0 in `Off` when `sustain_level` is not positive.
pub proof fn lemma_decay_ramp(e: EnvelopeView, k: nat)
    requires
        Envelope::fits(e),
        quiet(e),
        e.state == EnvelopeState::Decay,
        e.decay_delta > 0,
        e.amplitude - k * e.decay_delta > decay_floor(e.sustain_level),
    ensures
        envelope_run(e, k) == (EnvelopeView { amplitude: e.amplitude - k * e.decay_delta, ..e }),
        e.amplitude - (k + 1) * e.decay_delta <= e.sustain_level && e.sustain_level > 0
            ==> envelope_step(envelope_run(e, k)) == (EnvelopeView {
                amplitude: e.sustain_level,
                state: EnvelopeState::Sustain,
                ..e
            }),
        e.amplitude - (k + 1) * e.decay_delta <= 0 && e.sustain_level <= 0
            ==> envelope_step(envelope_run(e, k)) == (EnvelopeView {
                amplitude: 0,
                state: EnvelopeState::Off,
                ..e
            }),
    decreases k,
{
    assert((k + 1) * e.decay_delta == k * e.decay_delta + e.decay_delta) by (nonlinear_arith);
    assert(k * e.decay_delta >= 0) by (nonlinear_arith)
        requires
            e.decay_delta > 0,
    ;
    if k > 0 {
        let k1 = (k - 1) as nat;
        assert(k * e.decay_delta == k1 * e.decay_delta + e.decay_delta) by (nonlinear_arith)
            requires
                k1 == k - 1,
        ;
        let e1 = envelope_step(e);
        assert(e1 == EnvelopeView { amplitude: e.amplitude - e.decay_delta, ..e });
        lemma_decay_ramp(e1, k1);
        assert(envelope_run(e, k) == envelope_run(e1, k1));
    } else {
        assert(k * e.decay_delta == 0) by (nonlinear_arith)
            requires
                k == 0,
        ;
        assert(envelope_run(e, k) == e);
    }
}

/// Release ramp: with no trigger armed and a positive `release_delta`, the
/// amplitude falls by exactly `release_delta` per sample while it stays above
/// 0; the sample that reaches 0 settles on exactly 0 in `Off`.
pub proof fn lemma_release_ramp(e: EnvelopeView, k: nat)
    requires
        Envelope::fits(e),
        quiet(e),
        e.state == EnvelopeState::Release,
        e.release_delta > 0,
        e.amplitude - k * e.release_delta > 0,
    ensures
        envelope_run(e, k) == (EnvelopeView { amplitude: e.amplitude - k * e.release_delta, ..e }),
        e.amplitude - (k + 1) * e.release_delta <= 0 ==> envelope_step(envelope_run(e, k))
            == (EnvelopeView { amplitude: 0, state: EnvelopeState::Off, ..e }),
    decreases k,
{
    assert((k + 1) * e.release_delta == k * e.release_delta + e.release_delta) by (nonlinear_arith);
    assert(k * e.release_delta >= 0) by (nonlinear_arith)
        requires
            e.release_delta > 0,
    ;
    if k > 0 {
        let k1 = (k - 1) as nat;
        assert(k * e.release_delta == k1 * e.release_delta + e.release_delta) by (nonlinear_arith)
            requires
                k1 == k - 1,
        ;
        let e1 = envelope_step(e);
        assert(e1 == EnvelopeView { amplitude: e.amplitude - e.release_delta, ..e });
        lemma_release_ramp(e1, k1);
        assert(envelope_run(e, k) == envelope_run(e1, k1));
    } else {
        assert(k * e.release_delta == 0) by (nonlinear_arith)
            requires
                k == 0,
        ;
        assert(envelope_run(e, k) == e);
    }
}

/// Plateaus: with no trigger armed, `Sustain` holds the amplitude at
/// `sustain_level` and `Off` holds it at 0, for any number of samples.
pub proof fn lemma_plateau_holds(e: EnvelopeView, n: nat)
    requires
        quiet(e),
        e.state == EnvelopeState::Sustain && e.amplitude == e.sustain_level
            || e.state == EnvelopeState::Off && e.amplitude == 0,
    ensures
        envelope_run(e, n) == e,
    decreases n,
{
    if n > 0 {
        assert(envelope_step(e) == e);
        lemma_plateau_holds(e, (n - 1) as nat);
    }
}

/// `note_on` from silence: starting `Off` at 0 with `note_on` armed (and
/// `note_off` not), the first `k` samples climb `attack_delta` each while
/// below 1.0, and the trigger has been consumed.
pub proof fn lemma_note_on_attack(e: EnvelopeView, k: nat)
    requires
        Envelope::fits(e),
        armed(e.note_on),
        !armed(e.note_off),
        e.state == EnvelopeState::Off,
        e.amplitude == 0,
        e.attack_delta > 0,
        1 <= k,
        k * e.attack_delta < ONE as int,
    ensures
        envelope_run(e, k) == (EnvelopeView {
            amplitude: k * e.attack_delta,
            state: EnvelopeState::Attack,
            note_on: 0,
            ..e
        }),
{
    let k1 = (k - 1) as nat;
    assert(k * e.attack_delta == k1 * e.attack_delta + e.attack_delta) by (nonlinear_arith)
        requires
            k1 == k - 1,
    ;
    assert(k1 * e.attack_delta >= 0) by (nonlinear_arith)
        requires
            e.attack_delta > 0,
    ;
    let e1 = envelope_step(e);
    assert(e1 == EnvelopeView {
        amplitude: e.attack_delta,
        state: EnvelopeState::Attack,
        note_on: 0,
        ..e
    });
    lemma_attack_ramp(e1, k1);
}

/// `note_off` at any moment: an armed `note_off` puts the envelope into its
/// release, whatever its phase, lowering the amplitude by `release_delta`
/// (to exactly 0 in `Off` once that would not stay above 0).
pub proof fn lemma_note_off_releases(e: EnvelopeView)
    requires
        Envelope::fits(e),
        armed(e.note_off),
        e.release_delta > 0,
    ensures
        envelope_step(e).note_off == 0,
        e.amplitude - e.release_delta > 0 ==> envelope_step(e).state == EnvelopeState::Release
            && envelope_step(e).amplitude == e.amplitude - e.release_delta,
        e.amplitude - e.release_delta <= 0 ==> envelope_step(e).state == EnvelopeState::Off
            && envelope_step(e).amplitude == 0,
{
}

impl View for Envelope {
    type V = EnvelopeView;

    closed spec fn view(&self) -> EnvelopeView {
        EnvelopeView {
            amplitude: self.amplitude as int,
            state: self.state,
            attack_delta: self.attack_delta as int,
            decay_delta: self.decay_delta as int,
            sustain_level: self.sustain_level as int,
            release_delta: self.release_delta as int,
            note_on: self.note_on as int,
            note_off: self.note_off as int,
            sample_rate: self.sample_rate as nat,
        }
    }
}

impl Envelope {
    /// Values an envelope can hold: every field of the view fits an `i32`,
    /// the sample rate a `u32`.
    pub open spec fn fits(v: EnvelopeView) -> bool {
        &&& i32::MIN <= v.amplitude <= i32::MAX
        &&& i32::MIN <= v.attack_delta <= i32::MAX
        &&& i32::MIN <= v.decay_delta <= i32::MAX
        &&& i32::MIN <= v.sustain_level <= i32::MAX
        &&& i32::MIN <= v.release_delta <= i32::MAX
        &&& i32::MIN <= v.note_on <= i32::MAX
        &&& i32::MIN <= v.note_off <= i32::MAX
        &&& v.sample_rate <= u32::MAX
    }

    pub proof fn lemma_fits(&self)
        ensures
            Self::fits(self@),
    {
    }

    /// Silent and in the `Off` phase, with every input at 0.
    pub fn new() -> (r: Envelope)
        ensures
            r@ == silent_envelope(),
    {
        Envelope {
            amplitude: 0,
            sample_rate: 0,
            state: EnvelopeState::Off,
            attack_delta: 0,
            decay_delta: 0,
            sustain_level: 0,
            release_delta: 0,
            note_on: 0,
            note_off: 0,
        }
    }

    /// Records the sample rate of the stream.
    pub fn prepare(&mut self, sample_rate: u32)
        ensures
            final(self)@ == (EnvelopeView { sample_rate: sample_rate as nat, ..old(self)@ }),
    {
        self.sample_rate = sample_rate;
    }

    pub fn set_attack_delta(&mut self, v: i32)
        ensures
            final(self)@ == (EnvelopeView { attack_delta: v as int, ..old(self)@ }),
    {
        self.attack_delta = v;
    }

    pub fn set_decay_delta(&mut self, v: i32)
        ensures
            final(self)@ == (EnvelopeView { decay_delta: v as int, ..old(self)@ }),
    {
        self.decay_delta = v;
    }

    pub fn set_sustain_level(&mut self, v: i32)
        ensures
            final(self)@ == (EnvelopeView { sustain_level: v as int, ..old(self)@ }),
    {
        self.sustain_level = v;
    }

    pub fn set_release_delta(&mut self, v: i32)
        ensures
            final(self)@ == (EnvelopeView { release_delta: v as int, ..old(self)@ }),
    {
        self.release_delta = v;
    }

    pub fn set_note_on(&mut self, v: i32)
        ensures
            final(self)@ == (EnvelopeView { note_on: v as int, ..old(self)@ }),
    {
        self.note_on = v;
    }

    pub fn set_note_off(&mut self, v: i32)
        ensures
            final(self)@ == (EnvelopeView { note_off: v as int, ..old(self)@ }),
    {
        self.note_off = v;
    }

    /// The output: the current amplitude.
    pub fn amplitude(&self) -> (r: i32)
        ensures
            r as int == self@.amplitude,
    {
        self.amplitude
    }

    pub fn state(&self) -> (r: EnvelopeState)
        ensures
            r == self@.state,
    {
        self.state
    }

    /// Computes one sample: an armed `note_on` starts the attack, an armed
    /// `note_off` the release (both are reset once seen), then the phase
    /// moves the amplitude.
    pub fn process(&mut self)
        ensures
            final(self)@ == envelope_step(old(self)@),
    {
        if self.note_on >= ONE {
            self.state = EnvelopeState::Attack;
            self.note_on = 0;
        }
        if self.note_off >= ONE {
            self.state = EnvelopeState::Release;
            self.note_off = 0;
        }
        match self.state {
            EnvelopeState::Attack => {
                let a = saturating(self.amplitude as i64 + self.attack_delta as i64);
                if a >= ONE {
                    self.amplitude = ONE;
                    self.state = EnvelopeState::Decay;
                } else {
                    self.amplitude = a;
                }
            },
            EnvelopeState::Decay => {
                let a = saturating(self.amplitude as i64 - self.decay_delta as i64);
                let floor: i32 = if self.sustain_level > 0 {
                    self.sustain_level
                } else {
                    0
                };
                if a <= floor {
                    if self.sustain_level <= 0 {
                        self.amplitude = 0;
                        self.state = EnvelopeState::Off;
                    } else {
                        self.amplitude = self.sustain_level;
                        self.state = EnvelopeState::Sustain;
                    }
                } else {
                    self.amplitude = a;
                }
            },
            EnvelopeState::Sustain => {
                self.amplitude = self.sustain_level;
            },
            EnvelopeState::Release => {
                let a = saturating(self.amplitude as i64 - self.release_delta as i64);
                if a <= 0 {
                    self.amplitude = 0;
                    self.state = EnvelopeState::Off;
                } else {
                    self.amplitude = a;
                }
            },
            EnvelopeState::Off => {
                self.amplitude = 0;
            },
        }
    }
}

impl Default for Envelope {
    fn default() -> (r: Envelope)
        ensures
            r@ == silent_envelope(),
    {
        Envelope::new()
    }
}

/// `x` held to the range of `i32`.
fn saturating(x: i64) -> (r: i32)
    ensures
        r as int == saturate(x as int),
{
    if x < i32::MIN as i64 {
        i32::MIN
    } else if x > i32::MAX as i64 {
        i32::MAX
    } else {
        x as i32
    }
}

} // verus!
