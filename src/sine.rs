use vstd::prelude::*;

use crate::fixed::{floor_div, lerp, lerp_spec, ONE};
use vstd::math::abs;

verus! {

/// One full cycle of a phase accumulator.
pub const CYCLE: u64 = 4_294_967_296;

/// Largest number of entries a lookup table may have.
pub const MAX_TABLE: usize = 65_536;

/// Largest magnitude of the `amplitude` input (1000.0), so that the summed
/// output stays within `LIMIT`.
pub const AMP_LIMIT: i32 = 1_000_000_000;

/// A lookup table rejected by `prepare`.
#[derive(Clone, Copy, Debug, PartialEq, Eq, Structural)]
pub enum TableError {
    /// More than `MAX_TABLE` entries.
    TooLong,
    /// An entry lies outside `[-ONE, ONE]`.
    OutOfRange,
}

/// A usable lookup table: at most `MAX_TABLE` entries within `[-ONE, ONE]`.
pub open spec fn table_ok(t: Seq<int>) -> bool {
    &&& t.len() <= MAX_TABLE
    &&& forall|i: int| 0 <= i < t.len() ==> -ONE <= #[trigger] t[i] <= ONE
}

/// The table read at `phase` (one cycle is `CYCLE`), interpolating between
/// the two entries around it; an empty table reads 0.
pub open spec fn table_lookup(t: Seq<int>, phase: int) -> int {
    if t.len() == 0 {
        0
    } else {
        let pos = phase * t.len();
        let i0 = pos / CYCLE as int;
        let i1 = (i0 + 1) % (t.len() as int);
        lerp_spec(t[i0], t[i1], (pos % CYCLE as int) * ONE / CYCLE as int)
    }
}

/// Phase advance per sample for `frequency` (fixed-point Hz); none before
/// the sample rate is known.
pub open spec fn phase_increment(frequency: int, sample_rate: int) -> int {
    if sample_rate == 0 {
        0
    } else {
        (frequency * CYCLE as int) / (sample_rate * ONE)
    }
}

/// What an oscillator is, as seen from outside.
pub ghost struct SineView {
    pub frequency: int,
    pub amplitude: int,
    pub amount: int,
    pub sample: int,
    /// Modulator phase.
    pub phase_mod: int,
    /// Carrier phase.
    pub phase_car: int,
    pub sample_rate: nat,
    pub table: Seq<int>,
}

/// One sample of the oscillator: the modulator advances with the frequency;
/// the carrier advances with the frequency scaled by the modulator's value
/// and `amount`; the output is their sum scaled by `amplitude`.
pub open spec fn sine_step(s: SineView) -> SineView {
    let inc = phase_increment(s.frequency, s.sample_rate as int);
    let p0 = (s.phase_mod + inc) % CYCLE as int;
    let m = table_lookup(s.table, p0);
    let p1 = (s.phase_car + (inc * m * s.amount) / (ONE * ONE)) % CYCLE as int;
    let c = table_lookup(s.table, p1);
    SineView { phase_mod: p0, phase_car: p1, sample: ((m + c) * s.amplitude) / ONE as int, ..s }
}

/// `n` samples of the oscillator.
pub open spec fn sine_run(s: SineView, n: nat) -> SineView
    decreases n,
{
    if n == 0 {
        s
    } else {
        sine_run(sine_step(s), (n - 1) as nat)
    }
}

/// Without modulation the oscillator is a plain table oscillator: with
/// `amount` at 0 the carrier phase stands still, the modulator phase moves
/// by the frequency's increment every sample, and each output is the table
/// read at the modulator phase plus the table at the fixed carrier phase,
/// scaled by `amplitude`.
pub proof fn lemma_unmodulated(s: SineView, k: nat)
    requires
        0 <= s.phase_mod < CYCLE,
        0 <= s.phase_car < CYCLE,
        s.amount == 0,
    ensures
        ({
            let inc = phase_increment(s.frequency, s.sample_rate as int);
            let r = sine_run(s, k);
            &&& r.phase_mod == (s.phase_mod + k * inc) % CYCLE as int
            &&& r.phase_car == s.phase_car
            &&& r == (SineView { phase_mod: r.phase_mod, sample: r.sample, ..s })
            &&& k >= 1 ==> r.sample == ((table_lookup(s.table, r.phase_mod) + table_lookup(
                s.table,
                s.phase_car,
            )) * s.amplitude) / ONE as int
        }),
    decreases k,
{
    let inc = phase_increment(s.frequency, s.sample_rate as int);
    if k == 0 {
        vstd::arithmetic::div_mod::lemma_small_mod(s.phase_mod as nat, CYCLE as nat);
        assert(sine_run(s, 0) == s);
        assert(0 * inc == 0);
    } else {
        let s1 = sine_step(s);
        let m = table_lookup(s.table, s1.phase_mod);
        assert(inc * m * 0 == 0) by (nonlinear_arith);
        vstd::arithmetic::div_mod::lemma_small_mod(s.phase_car as nat, CYCLE as nat);
        vstd::arithmetic::div_mod::lemma_mod_bound(s.phase_mod + inc, CYCLE as int);
        assert(s1 == SineView { phase_mod: s1.phase_mod, sample: s1.sample, ..s });
        let k1 = (k - 1) as nat;
        lemma_unmodulated(s1, k1);
        assert(sine_run(s, k) == sine_run(s1, k1));
        vstd::arithmetic::div_mod::lemma_add_mod_noop(s.phase_mod + inc, k1 * inc, CYCLE as int);
        vstd::arithmetic::div_mod::lemma_mod_twice(s.phase_mod + inc, CYCLE as int);
        vstd::arithmetic::div_mod::lemma_add_mod_noop(s1.phase_mod, k1 * inc, CYCLE as int);
        assert(s.phase_mod + inc + k1 * inc == s.phase_mod + k * inc) by (nonlinear_arith)
            requires
                k1 == k - 1,
        ;
        if k1 == 0 {
            assert(sine_run(s1, 0) == s1);
        }
    }
}

/// Periodicity without modulation: with `amount` at 0, when `p` phase
/// increments make whole cycles, the output repeats every `p` samples.
pub proof fn lemma_unmodulated_period(s: SineView, k: nat, p: nat)
    requires
        0 <= s.phase_mod < CYCLE,
        0 <= s.phase_car < CYCLE,
        s.amount == 0,
        k >= 1,
        (p * phase_increment(s.frequency, s.sample_rate as int)) % CYCLE as int == 0,
    ensures
        sine_run(s, k + p) == sine_run(s, k),
{
    let inc = phase_increment(s.frequency, s.sample_rate as int);
    lemma_unmodulated(s, k);
    lemma_unmodulated(s, k + p);
    assert(s.phase_mod + (k + p) * inc == (s.phase_mod + k * inc) + p * inc) by (nonlinear_arith);
    vstd::arithmetic::div_mod::lemma_add_mod_noop(s.phase_mod + k * inc, p * inc, CYCLE as int);
    vstd::arithmetic::div_mod::lemma_mod_twice(s.phase_mod + k * inc, CYCLE as int);
}

/// A consistent oscillator.
pub open spec fn sine_wf(s: SineView) -> bool {
    &&& table_ok(s.table)
    &&& 0 <= s.phase_mod < CYCLE
    &&& 0 <= s.phase_car < CYCLE
    &&& -AMP_LIMIT <= s.amplitude <= AMP_LIMIT
    &&& i32::MIN <= s.frequency <= i32::MAX
    &&& i32::MIN <= s.amount <= i32::MAX
    &&& i32::MIN <= s.sample <= i32::MAX
    &&& s.sample_rate <= u32::MAX
}

/// Frequency-modulated oscillator reading a lookup table.
pub struct Sine {
    frequency: i32,
    amplitude: i32,
    amount: i32,
    sample: i32,
    phase: [u32; 2],
    sample_rate: u32,
    table: Vec<i32>,
}

impl View for Sine {
    type V = SineView;

    closed spec fn view(&self) -> SineView {
        SineView {
            frequency: self.frequency as int,
            amplitude: self.amplitude as int,
            amount: self.amount as int,
            sample: self.sample as int,
            phase_mod: self.phase[0] as int,
            phase_car: self.phase[1] as int,
            sample_rate: self.sample_rate as nat,
            table: self.table@.map_values(|x: i32| x as int),
        }
    }
}

/// Reads the table at `phase`.
fn lookup(table: &Vec<i32>, phase: u32) -> (r: i32)
    requires
        table_ok(table@.map_values(|x: i32| x as int)),
    ensures
        r as int == table_lookup(table@.map_values(|x: i32| x as int), phase as int),
        -ONE <= r <= ONE,
{
    let ghost t = table@.map_values(|x: i32| x as int);
    let n = table.len();
    if n == 0 {
        return 0;
    }
    proof {
        assert(phase as int * n as int <= 4_294_967_295 * 65_536) by (nonlinear_arith)
            requires
                phase <= 4_294_967_295,
                n <= 65_536,
        ;
    }
    let pos: u64 = phase as u64 * n as u64;
    proof {
        assert(pos < n as int * CYCLE as int) by (nonlinear_arith)
            requires
                pos == phase as int * n as int,
                phase < CYCLE,
                n >= 1,
        ;
        vstd::arithmetic::div_mod::lemma_div_by_multiple_is_strongly_ordered(
            pos as int,
            n as int * CYCLE as int,
            n as int,
            CYCLE as int,
        );
    }
    let i0: usize = (pos / CYCLE) as usize;
    let i1: usize = if i0 + 1 == n {
        0
    } else {
        i0 + 1
    };
    proof {
        if i0 + 1 == n {
            vstd::arithmetic::div_mod::lemma_mod_self_0(n as int);
        } else {
            vstd::arithmetic::div_mod::lemma_small_mod((i0 + 1) as nat, n as nat);
        }
        let f = pos as int % CYCLE as int;
        assert(0 <= f < CYCLE);
        assert(f * ONE < CYCLE * ONE) by (nonlinear_arith)
            requires
                0 <= f < CYCLE,
        ;
        vstd::arithmetic::div_mod::lemma_div_is_ordered(f * ONE, CYCLE * ONE, CYCLE as int);
        vstd::arithmetic::div_mod::lemma_div_multiples_vanish(ONE as int, CYCLE as int);
        assert(0 <= f * ONE) by (nonlinear_arith)
            requires
                0 <= f,
        ;
        vstd::arithmetic::div_mod::lemma_div_pos_is_pos(f * ONE, CYCLE as int);
        assert(CYCLE as int * ONE as int == ONE as int * CYCLE as int);
        assert(-ONE <= t[i0 as int] <= ONE && -ONE <= t[i1 as int] <= ONE);
    }
    let w: u64 = (pos % CYCLE) * ONE as u64 / CYCLE;
    lerp(table[i0], table[i1], w as i32)
}

/// Advances `phase` by `inc`, wrapping within one cycle.
fn wrap_phase(phase: u32, inc: i128) -> (r: u32)
    requires
        -0x1_0000_0000_0000_0000_0000_0000_0000 <= inc <= 0x1_0000_0000_0000_0000_0000_0000_0000,
    ensures
        r as int == (phase as int + inc as int) % CYCLE as int,
{
    let s: i128 = phase as i128 + inc;
    let q: i128 = floor_div(s, CYCLE as i128);
    proof {
        vstd::arithmetic::div_mod::lemma_fundamental_div_mod(s as int, CYCLE as int);
        vstd::arithmetic::div_mod::lemma_mod_bound(s as int, CYCLE as int);
    }
    let r: i128 = s - q * CYCLE as i128;
    r as u32
}

impl Sine {
    /// A silent oscillator with no table and an unknown sample rate.
    pub fn new() -> (r: Sine)
        ensures
            sine_wf(r@),
            r@ == (SineView {
                frequency: 0,
                amplitude: 0,
                amount: 0,
                sample: 0,
                phase_mod: 0,
                phase_car: 0,
                sample_rate: 0,
                table: Seq::empty(),
            }),
    {
        let r = Sine {
            frequency: 0,
            amplitude: 0,
            amount: 0,
            sample: 0,
            phase: [0, 0],
            sample_rate: 0,
            table: Vec::new(),
        };
        assert(r@.table =~= Seq::<int>::empty());
        r
    }

    /// Takes the sample rate and the lookup table built for it; a table that
    /// is too long or leaves `[-ONE, ONE]` is refused and nothing changes.
    pub fn prepare(&mut self, sample_rate: u32, table: Vec<i32>) -> (r: Result<(), TableError>)
        requires
            sine_wf(old(self)@),
        ensures
            sine_wf(final(self)@),
            table@.len() > MAX_TABLE <==> r == Err::<(), TableError>(TableError::TooLong),
            table@.len() <= MAX_TABLE && (exists|i: int|
                0 <= i < table@.len() && !(-ONE <= #[trigger] table@[i] <= ONE)) <==> r == Err::<
                (),
                TableError,
            >(TableError::OutOfRange),
            r is Ok ==> final(self)@ == (SineView {
                sample_rate: sample_rate as nat,
                table: table@.map_values(|x: i32| x as int),
                ..old(self)@
            }),
            r is Err ==> final(self)@ == old(self)@,
    {
        if table.len() > MAX_TABLE {
            return Err(TableError::TooLong);
        }
        let mut i: usize = 0;
        while i < table.len()
            invariant
                i <= table@.len(),
                table@.len() <= MAX_TABLE,
                self@ == old(self)@,
                sine_wf(old(self)@),
                forall|j: int| 0 <= j < i ==> -ONE <= #[trigger] table@[j] <= ONE,
            decreases table@.len() - i,
        {
            if table[i] < -ONE || table[i] > ONE {
                return Err(TableError::OutOfRange);
            }
            i = i + 1;
        }
        self.sample_rate = sample_rate;
        self.table = table;
        Ok(())
    }

    pub fn set_frequency(&mut self, v: i32)
        requires
            sine_wf(old(self)@),
        ensures
            sine_wf(final(self)@),
            final(self)@ == (SineView { frequency: v as int, ..old(self)@ }),
    {
        self.frequency = v;
    }

    /// Sets the output scale; its magnitude is at most `AMP_LIMIT`.
    pub fn set_amplitude(&mut self, v: i32)
        requires
            sine_wf(old(self)@),
            -AMP_LIMIT <= v <= AMP_LIMIT,
        ensures
            sine_wf(final(self)@),
            final(self)@ == (SineView { amplitude: v as int, ..old(self)@ }),
    {
        self.amplitude = v;
    }

    /// Sets the modulation depth.
    pub fn set_amount(&mut self, v: i32)
        requires
            sine_wf(old(self)@),
        ensures
            sine_wf(final(self)@),
            final(self)@ == (SineView { amount: v as int, ..old(self)@ }),
    {
        self.amount = v;
    }

    /// The output of the last `process`.
    pub fn output(&self) -> (r: i32)
        ensures
            r as int == self@.sample,
    {
        self.sample
    }

    /// Computes one sample. The output never exceeds twice the amplitude in
    /// magnitude: each of the two summed table values is at most 1.0.
    pub fn process(&mut self)
        requires
            sine_wf(old(self)@),
        ensures
            sine_wf(final(self)@),
            final(self)@ == sine_step(old(self)@),
            -2 * abs(old(self)@.amplitude) <= final(self)@.sample <= 2 * abs(old(self)@.amplitude),
    {
        let ghost s = self@;
        let inc: i128 = if self.sample_rate == 0 {
            0
        } else {
            proof {
                assert(-9_223_372_036_854_775_808 <= self.frequency as int * CYCLE as int
                    <= 9_223_372_036_854_775_807) by (nonlinear_arith)
                    requires
                        -2_147_483_648 <= self.frequency <= 2_147_483_647,
                ;
                assert(self.sample_rate as int * ONE as int >= 1_000_000) by (nonlinear_arith)
                    requires
                        self.sample_rate >= 1,
                ;
            }
            floor_div(self.frequency as i128 * CYCLE as i128, self.sample_rate as i128 * ONE as i128)
        };
        proof {
            lemma_increment_bound(self.frequency as int, self.sample_rate as int);
        }
        let p0 = wrap_phase(self.phase[0], inc);
        let m = lookup(&self.table, p0);
        proof {
            assert(-0x1_0000_0000_0000 * 1_000_000 * 0x1_0000_0000 <= inc * m * self.amount
                <= 0x1_0000_0000_0000 * 1_000_000 * 0x1_0000_0000) by (nonlinear_arith)
                requires
                    -0x1_0000_0000_0000 <= inc <= 0x1_0000_0000_0000,
                    -1_000_000 <= m <= 1_000_000,
                    -0x1_0000_0000 <= self.amount <= 0x1_0000_0000,
            ;
            assert(-0x1_0000_0000_0000 * 1_000_000 <= inc * m <= 0x1_0000_0000_0000 * 1_000_000)
                by (nonlinear_arith)
                requires
                    -0x1_0000_0000_0000 <= inc <= 0x1_0000_0000_0000,
                    -1_000_000 <= m <= 1_000_000,
            ;
            lemma_carrier_bound(inc * m * self.amount);
        }
        let cinc: i128 = floor_div(inc * m as i128 * self.amount as i128, ONE as i128 * ONE as i128);
        let p1 = wrap_phase(self.phase[1], cinc);
        let c = lookup(&self.table, p1);
        proof {
            lemma_output_bound(m as int, c as int, self.amplitude as int);
        }
        let out: i128 = floor_div((m as i128 + c as i128) * self.amplitude as i128, ONE as i128);
        self.phase = [p0, p1];
        self.sample = out as i32;
    }
}

impl Default for Sine {
    fn default() -> (r: Sine)
        ensures
            sine_wf(r@),
            r@.table.len() == 0,
            r@.sample_rate == 0,
            r@.sample == 0,
    {
        Sine::new()
    }
}

/// The per-sample phase increment stays well inside `i128`.
proof fn lemma_increment_bound(frequency: int, sample_rate: int)
    requires
        -2_147_483_648 <= frequency <= 2_147_483_647,
        0 <= sample_rate,
    ensures
        -0x1_0000_0000_0000 <= phase_increment(frequency, sample_rate) <= 0x1_0000_0000_0000,
{
    if sample_rate > 0 {
        let x = frequency * CYCLE as int;
        let d = sample_rate * ONE;
        assert(-0x8000_0000_0000_0000 <= x <= 0x8000_0000_0000_0000) by (nonlinear_arith)
            requires
                -2_147_483_648 <= frequency <= 2_147_483_647,
                x == frequency * 4_294_967_296,
        ;
        assert(d >= 1_000_000) by (nonlinear_arith)
            requires
                sample_rate >= 1,
                d == sample_rate * 1_000_000,
        ;
        vstd::arithmetic::div_mod::lemma_div_is_ordered(x, 0x8000_0000_0000_0000, d);
        vstd::arithmetic::div_mod::lemma_div_is_ordered(-0x8000_0000_0000_0000, x, d);
        vstd::arithmetic::div_mod::lemma_div_is_ordered_by_denominator(
            0x8000_0000_0000_0000,
            1_000_000,
            d,
        );
        vstd::arithmetic::div_mod::lemma_fundamental_div_mod(-0x8000_0000_0000_0000, d);
        vstd::arithmetic::div_mod::lemma_mod_bound(-0x8000_0000_0000_0000, d);
        assert((-0x8000_0000_0000_0000int) / d >= -0x1_0000_0000_0000) by (nonlinear_arith)
            requires
                -0x8000_0000_0000_0000int == d * ((-0x8000_0000_0000_0000int) / d)
                    + (-0x8000_0000_0000_0000int) % d,
                0 <= (-0x8000_0000_0000_0000int) % d < d,
                d >= 1_000_000,
        ;
    }
}

/// The carrier's increment stays well inside `i128`.
proof fn lemma_carrier_bound(x: int)
    requires
        -0x1_0000_0000_0000 * 1_000_000 * 0x1_0000_0000 <= x <= 0x1_0000_0000_0000 * 1_000_000
            * 0x1_0000_0000,
    ensures
        -0x1_0000_0000_0000_0000_0000_0000_0000 <= x / (ONE * ONE)
            <= 0x1_0000_0000_0000_0000_0000_0000_0000,
{
    let d = ONE * ONE;
    vstd::arithmetic::div_mod::lemma_fundamental_div_mod(x, d);
    vstd::arithmetic::div_mod::lemma_mod_bound(x, d);
    assert(-0x1_0000_0000_0000_0000_0000_0000_0000 <= x / d
        <= 0x1_0000_0000_0000_0000_0000_0000_0000) by (nonlinear_arith)
        requires
            x == d * (x / d) + x % d,
            0 <= x % d < d,
            d == 1_000_000_000_000,
            -0x1_0000_0000_0000 * 1_000_000 * 0x1_0000_0000 <= x <= 0x1_0000_0000_0000 * 1_000_000
                * 0x1_0000_0000,
    ;
}

/// The summed output is at most twice the amplitude in magnitude.
proof fn lemma_output_bound(m: int, c: int, a: int)
    requires
        -ONE <= m <= ONE,
        -ONE <= c <= ONE,
        -AMP_LIMIT <= a <= AMP_LIMIT,
    ensures
        -2 * abs(a) <= ((m + c) * a) / (ONE as int) <= 2 * abs(a),
        -0x1_0000_0000_0000_0000 <= (m + c) * a <= 0x1_0000_0000_0000_0000,
{
    let one = ONE as int;
    let x = (m + c) * a;
    let b: int = 2 * abs(a) as int;
    assert(-b * one <= x <= b * one) by (nonlinear_arith)
        requires
            -one <= m <= one,
            -one <= c <= one,
            x == (m + c) * a,
            b == 2 * abs(a),
            one > 0,
    ;
    assert(-0x1_0000_0000_0000_0000 <= x <= 0x1_0000_0000_0000_0000) by (nonlinear_arith)
        requires
            -b * one <= x <= b * one,
            b <= 2_000_000_000,
            one == 1_000_000,
            b >= 0,
    ;
    vstd::arithmetic::div_mod::lemma_div_is_ordered(x, b * one, one);
    vstd::arithmetic::div_mod::lemma_div_is_ordered(-b * one, x, one);
    vstd::arithmetic::div_mod::lemma_div_multiples_vanish(b, one);
    vstd::arithmetic::div_mod::lemma_div_multiples_vanish(-b, one);
    assert(-b * one == (-b) * one) by (nonlinear_arith);
}

} // verus!
