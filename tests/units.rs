use modsynth::delay::Delay;
use modsynth::envelope::{Envelope, EnvelopeState};
use modsynth::fixed::{clamp, floor_div, lerp, ONE};
use modsynth::sine::{Sine, TableError, MAX_TABLE};

fn adsr(attack: i32, decay: i32, sustain: i32, release: i32) -> Envelope {
    let mut e = Envelope::new();
    e.set_attack_delta(attack);
    e.set_decay_delta(decay);
    e.set_sustain_level(sustain);
    e.set_release_delta(release);
    e
}

#[test]
fn envelope_example_sequence() {
    let mut e = adsr(100_000, 50_000, 500_000, 100_000);
    assert_eq!(e.amplitude(), 0);
    assert_eq!(e.state(), EnvelopeState::Off);
    e.set_note_on(ONE);
    for k in 1..=10 {
        e.process();
        assert_eq!(e.amplitude(), k * 100_000);
    }
    assert_eq!(e.state(), EnvelopeState::Decay);
    for k in 1..=10 {
        e.process();
        assert_eq!(e.amplitude(), ONE - k * 50_000);
    }
    assert_eq!(e.state(), EnvelopeState::Sustain);
    for _ in 0..50 {
        e.process();
        assert_eq!(e.amplitude(), 500_000);
    }
    e.set_note_off(ONE);
    for expected in [400_000, 300_000, 200_000, 100_000, 0] {
        e.process();
        assert_eq!(e.amplitude(), expected);
    }
    assert_eq!(e.state(), EnvelopeState::Off);
    for _ in 0..20 {
        e.process();
        assert_eq!(e.amplitude(), 0);
    }
}

#[test]
fn envelope_attack_strictly_rises_then_clamps() {
    let mut e = adsr(300_000, 100_000, 200_000, 100_000);
    e.set_note_on(ONE);
    let mut seen = Vec::new();
    for _ in 0..4 {
        e.process();
        seen.push(e.amplitude());
    }
    assert_eq!(seen, vec![300_000, 600_000, 900_000, ONE]);
    assert_eq!(e.state(), EnvelopeState::Decay);
}

#[test]
fn envelope_sustain_follows_live_level() {
    let mut e = adsr(ONE, ONE, 500_000, 100_000);
    e.set_note_on(ONE);
    e.process();
    e.process();
    assert_eq!(e.state(), EnvelopeState::Sustain);
    assert_eq!(e.amplitude(), 500_000);
    e.set_sustain_level(700_000);
    e.process();
    assert_eq!(e.amplitude(), 700_000);
}

#[test]
fn envelope_zero_sustain_goes_off() {
    let mut e = adsr(ONE, 300_000, 0, 100_000);
    e.set_note_on(ONE);
    e.process();
    assert_eq!(e.amplitude(), ONE);
    for expected in [700_000, 400_000, 100_000] {
        e.process();
        assert_eq!(e.amplitude(), expected);
    }
    e.process();
    assert_eq!(e.amplitude(), 0);
    assert_eq!(e.state(), EnvelopeState::Off);
}

#[test]
fn envelope_on_and_off_together_release() {
    let mut e = adsr(100_000, 100_000, 500_000, 100_000);
    e.set_note_on(ONE);
    e.process();
    e.process();
    e.process();
    assert_eq!(e.amplitude(), 300_000);
    e.set_note_on(ONE);
    e.set_note_off(ONE);
    e.process();
    assert_eq!(e.state(), EnvelopeState::Release);
    assert_eq!(e.amplitude(), 200_000);
}

#[test]
fn envelope_trigger_below_one_is_ignored() {
    let mut e = adsr(100_000, 100_000, 500_000, 100_000);
    e.set_note_on(ONE - 1);
    e.process();
    assert_eq!(e.state(), EnvelopeState::Off);
    assert_eq!(e.amplitude(), 0);
}

#[test]
fn envelope_note_off_mid_attack() {
    let mut e = adsr(250_000, 100_000, 500_000, 200_000);
    e.set_note_on(ONE);
    e.process();
    e.process();
    assert_eq!(e.amplitude(), 500_000);
    e.set_note_off(ONE);
    for expected in [300_000, 100_000, 0, 0] {
        e.process();
        assert_eq!(e.amplitude(), expected);
    }
    assert_eq!(e.state(), EnvelopeState::Off);
}

fn delay_outputs(d: &mut Delay, inputs: &[i32]) -> Vec<i32> {
    let mut out = Vec::new();
    for &x in inputs {
        d.set_sample(x);
        d.process();
        out.push(d.output());
    }
    out
}

#[test]
fn delay_impulse_returns_after_whole_delay() {
    for t in 1..16 {
        let mut d = Delay::new(16);
        d.prepare(1000);
        d.set_time(t * ONE);
        let mut input = vec![0; 20];
        input[0] = ONE;
        let out = delay_outputs(&mut d, &input);
        assert_eq!(out[0], ONE / 2);
        for k in 1..20 {
            let expected = if k == t as usize { ONE / 2 } else { 0 };
            assert_eq!(out[k], expected, "delay {} sample {}", t, k);
        }
    }
}

#[test]
fn delay_impulse_fractional_delay_interpolates() {
    let mut d = Delay::new(16);
    d.prepare(1000);
    d.set_time(2_500_000);
    let mut input = vec![0; 6];
    input[0] = ONE;
    let out = delay_outputs(&mut d, &input);
    assert_eq!(out, vec![ONE / 2, 0, 250_000, 250_000, 0, 0]);
}

#[test]
fn delay_zero_reads_latest_sample() {
    let mut d = Delay::new(8);
    d.prepare(1000);
    d.set_time(0);
    let out = delay_outputs(&mut d, &[10, -20, 300, 7]);
    assert_eq!(out, vec![10, -20, 300, 7]);
}

#[test]
fn delay_time_is_clamped_to_capacity() {
    let mut d = Delay::new(4);
    d.prepare(1000);
    d.set_time(100 * ONE);
    let out = delay_outputs(&mut d, &[ONE, 0, 0, 0, 0]);
    assert_eq!(out, vec![ONE / 2, 0, 0, ONE / 2, 0]);
    d.set_time(-5 * ONE);
    let out = delay_outputs(&mut d, &[40, 60]);
    assert_eq!(out, vec![40, 60]);
}

#[test]
fn delay_time_uses_sample_rate() {
    let mut d = Delay::new(64);
    d.prepare(2000);
    d.set_time(10 * ONE);
    let mut input = vec![0; 25];
    input[0] = 1000;
    let out = delay_outputs(&mut d, &input);
    assert_eq!(out[20], 500);
    assert_eq!(out.iter().filter(|&&x| x != 0).count(), 2);
}

#[test]
fn delay_default_holds_one_second() {
    let mut d = Delay::default();
    d.set_time(1000 * ONE);
    d.set_sample(ONE);
    d.process();
    assert_eq!(d.output(), ONE / 2);
    let mut last = 0;
    for _ in 0..44_099 {
        d.set_sample(0);
        d.process();
        last = d.output();
    }
    assert_eq!(last, ONE / 2);
}

#[test]
fn fixed_point_helpers() {
    assert_eq!(lerp(0, ONE, ONE / 2), ONE / 2);
    assert_eq!(lerp(100, 200, ONE / 4), 125);
    assert_eq!(lerp(200, 100, ONE / 4), 175);
    assert_eq!(lerp(0, -3, ONE / 2), -2);
    assert_eq!(floor_div(-7, 2), -4);
    assert_eq!(floor_div(7, 2), 3);
    assert_eq!(floor_div(-8, 2), -4);
    assert_eq!(clamp(5, 0, 3), 3);
    assert_eq!(clamp(-5, 0, 3), 0);
    assert_eq!(clamp(2, 0, 3), 2);
}

fn quarter_table() -> Vec<i32> {
    vec![0, ONE, 0, -ONE]
}

#[test]
fn sine_table_steps_by_frequency() {
    let mut s = Sine::new();
    assert_eq!(s.prepare(4, quarter_table()), Ok(()));
    s.set_frequency(ONE);
    s.set_amplitude(ONE);
    s.set_amount(0);
    let mut out = Vec::new();
    for _ in 0..8 {
        s.process();
        out.push(s.output());
    }
    assert_eq!(out, vec![ONE, 0, -ONE, 0, ONE, 0, -ONE, 0]);
}

#[test]
fn sine_interpolates_between_entries() {
    let mut s = Sine::new();
    assert_eq!(s.prepare(8, quarter_table()), Ok(()));
    s.set_frequency(ONE);
    s.set_amplitude(ONE);
    s.process();
    assert_eq!(s.output(), ONE / 2);
    s.process();
    assert_eq!(s.output(), ONE);
}

#[test]
fn sine_unmodulated_is_a_sinusoid() {
    let n = 4096;
    let table: Vec<i32> = (0..n)
        .map(|i| ((i as f64 / n as f64 * std::f64::consts::TAU).sin() * ONE as f64).round() as i32)
        .collect();
    let mut s = Sine::new();
    assert_eq!(s.prepare(48_000, table), Ok(()));
    s.set_frequency(440 * ONE);
    s.set_amplitude(ONE / 2);
    for k in 1..2000 {
        s.process();
        let expected = 0.5 * (std::f64::consts::TAU * 440.0 * k as f64 / 48_000.0).sin();
        let got = s.output() as f64 / ONE as f64;
        assert!((got - expected).abs() < 1e-3, "sample {}: {} vs {}", k, got, expected);
    }
}

#[test]
fn sine_modulated_output_stays_within_twice_amplitude() {
    let mut s = Sine::new();
    assert_eq!(s.prepare(44_100, vec![0, 700_000, ONE, 700_000, 0, -700_000, -ONE, -700_000]), Ok(()));
    s.set_frequency(220 * ONE);
    s.set_amplitude(300_000);
    s.set_amount(16 * ONE);
    let mut moved = false;
    for _ in 0..5000 {
        s.process();
        assert!(s.output().abs() <= 600_000);
        if s.output() != 0 {
            moved = true;
        }
    }
    assert!(moved);
}

#[test]
fn sine_without_table_is_silent() {
    let mut s = Sine::default();
    s.set_frequency(440 * ONE);
    s.set_amplitude(ONE);
    s.process();
    assert_eq!(s.output(), 0);
}

#[test]
fn sine_rejects_bad_tables() {
    let mut s = Sine::new();
    assert_eq!(s.prepare(48_000, vec![0, ONE + 1]), Err(TableError::OutOfRange));
    assert_eq!(s.prepare(48_000, vec![0; MAX_TABLE + 1]), Err(TableError::TooLong));
    s.set_frequency(ONE);
    s.set_amplitude(ONE);
    s.process();
    assert_eq!(s.output(), 0);
}

#[test]
fn envelope_negative_sustain_stops_at_zero() {
    let mut e = adsr(ONE, 600_000, -500_000, 100_000);
    e.set_note_on(ONE);
    e.process();
    assert_eq!(e.amplitude(), ONE);
    e.process();
    assert_eq!(e.amplitude(), 400_000);
    e.process();
    assert_eq!(e.amplitude(), 0);
    assert_eq!(e.state(), EnvelopeState::Off);
    for _ in 0..5 {
        e.process();
        assert_eq!(e.amplitude(), 0);
    }
}

#[test]
fn delay_impulse_response_follows_the_tent() {
    let mut d = Delay::new(16);
    d.prepare(1000);
    d.set_time(2_300_000);
    let mut input = vec![0; 8];
    input[0] = ONE;
    let out = delay_outputs(&mut d, &input);
    assert_eq!(out, vec![ONE / 2, 0, 350_000, 150_000, 0, 0, 0, 0]);
    let mut d = Delay::new(16);
    d.prepare(1000);
    d.set_time(0);
    let out = delay_outputs(&mut d, &[ONE, 0, 0]);
    assert_eq!(out, vec![ONE, 0, 0]);
}

#[test]
fn sine_repeats_with_whole_cycles() {
    let mut s = Sine::new();
    assert_eq!(s.prepare(8, vec![0, 300_000, ONE, 300_000, 0, -300_000, -ONE, -300_000, 0, 5]), Ok(()));
    s.set_frequency(ONE);
    s.set_amplitude(ONE);
    let mut out = Vec::new();
    for _ in 0..24 {
        s.process();
        out.push(s.output());
    }
    for k in 0..16 {
        assert_eq!(out[k], out[k + 8]);
    }
}
