use vstd::prelude::*;

use crate::fixed::{clamp_spec, floor_div, in_limit, lerp, lerp_spec, ONE};

verus! {

/// Cells of a default delay line: one second at 44.1 kHz.
pub const DEFAULT_CAPACITY: usize = 44_100;

/// Largest number of cells a delay line may have.
pub const MAX_CAPACITY: usize = 16_777_216;

/// What a delay line is, as seen from outside.
pub ghost struct DelayView {
    /// The input before `process`, the output after it.
    pub sample: int,
    /// Delay length in samples, fixed-point (`ONE` per sample).
    pub delay: int,
    pub sample_rate: nat,
    pub memory: Seq<int>,
    /// Read position of the last `process`, fixed-point (`ONE` per cell).
    pub read_pos: int,
    pub write_idx: int,
}

/// Fractional delay line with a circular buffer and a 50/50 wet/dry mix.
pub struct Delay {
    sample: i32,
    delay_ticks: i64,
    sample_rate: u32,
    memory: Vec<i32>,
    read_idx: i64,
    write_idx: usize,
}

/// Delay length for `time_ms` (fixed-point milliseconds) at `sample_rate`,
/// held to what a buffer of `n` cells can give.
pub open spec fn delay_ticks_for(time_ms: int, sample_rate: int, n: int) -> int {
    clamp_spec((time_ms * sample_rate) / 1000, 0, (n - 1) * ONE as int)
}

/// Where the line reads: `delay` behind the cell just written, wrapped.
pub open spec fn read_position(written: int, delay: int, n: int) -> int {
    (written * ONE as int - delay) % (n * ONE as int)
}

/// One sample of the line: write the input, read the interpolated echo
/// `delay` behind it, and mix it half and half with the input.
pub open spec fn delay_step(d: DelayView) -> DelayView {
    let n = d.memory.len() as int;
    let mem = d.memory.update(d.write_idx, d.sample);
    let pos = read_position(d.write_idx, d.delay, n);
    let i0 = pos / ONE as int;
    let i1 = (i0 + 1) % n;
    let wet = lerp_spec(mem[i0], mem[i1], pos % ONE as int);
    DelayView {
        sample: lerp_spec(d.sample, wet, ONE as int / 2),
        memory: mem,
        read_pos: pos,
        write_idx: (d.write_idx + 1) % n,
        ..d
    }
}

/// Feed `x` and run one sample.
pub open spec fn delay_feed(d: DelayView, x: int) -> DelayView {
    delay_step(DelayView { sample: x, ..d })
}

/// `k` samples of silence fed after `d`.
pub open spec fn delay_silence(d: DelayView, k: nat) -> DelayView
    decreases k,
{
    if k == 0 {
        d
    } else {
        delay_silence(delay_feed(d, 0), (k - 1) as nat)
    }
}

/// A burst of writes to the sample input, with no `process` between them.
pub open spec fn delay_set_burst(d: DelayView, vals: Seq<int>) -> DelayView
    decreases vals.len(),
{
    if vals.len() == 0 {
        d
    } else {
        DelayView { sample: vals.last(), ..delay_set_burst(d, vals.drop_last()) }
    }
}

/// Coalescing of the sample input: after a burst of writes only the last
/// one is seen; the earlier ones leave no trace.
pub proof fn lemma_sample_burst(d: DelayView, vals: Seq<int>)
    requires
        vals.len() >= 1,
    ensures
        delay_set_burst(d, vals) == (DelayView { sample: vals.last(), ..d }),
    decreases vals.len(),
{
    if vals.len() > 1 {
        lemma_sample_burst(d, vals.drop_last());
    } else {
        assert(vals.drop_last().len() == 0);
        assert(delay_set_burst(d, vals.drop_last()) == d);
    }
}

/// Silence fed one sample at a time: the last of `k + 1` samples of silence
/// follows the first `k`.
proof fn lemma_silence_last(d: DelayView, k: nat)
    ensures
        delay_silence(d, k + 1) == delay_feed(delay_silence(d, k), 0),
    decreases k,
{
    if k > 0 {
        lemma_silence_last(delay_feed(d, 0), (k - 1) as nat);
        assert(delay_silence(d, k) == delay_silence(delay_feed(d, 0), (k - 1) as nat));
        assert(delay_silence(d, k + 1) == delay_silence(delay_feed(d, 0), k));
    } else {
        assert(delay_silence(d, 0) == d);
        assert(delay_silence(delay_feed(d, 0), 0) == delay_feed(d, 0));
        assert(delay_silence(d, 1) == delay_silence(delay_feed(d, 0), 0));
    }
}

/// An impulse comes back after its delay. On a silent line whose delay is a
/// whole `t` samples, a unit impulse followed by silence gives at once half
/// the impulse (the dry half of the mix), then nothing for `t - 1` samples,
/// then on the `t`-th sample after it half the impulse again (the wet half).
pub proof fn lemma_impulse_echo(d: DelayView, t: nat)
    requires
        delay_wf(d),
        forall|i: int| 0 <= i < d.memory.len() ==> #[trigger] d.memory[i] == 0,
        d.delay == t * ONE,
        1 <= t < d.memory.len(),
    ensures
        delay_feed(d, ONE as int).sample == ONE / 2,
        forall|j: nat| 1 <= j < t ==> (#[trigger] delay_silence(delay_feed(d, ONE as int), j)).sample == 0,
        delay_silence(delay_feed(d, ONE as int), t).sample == ONE / 2,
{
    let one = ONE as int;
    assert(lerp_spec(0, one, one / 2) == one / 2 && lerp_spec(one, 0, one / 2) == one / 2) by {
        vstd::arithmetic::div_mod::lemma_div_multiples_vanish(500_000, 1_000_000);
        vstd::arithmetic::div_mod::lemma_div_multiples_vanish(-500_000, 1_000_000);
        assert(500_000int * (1_000_000int - 0) == 1_000_000int * 500_000int);
        assert(500_000int * (0 - 1_000_000int) == 1_000_000int * (-500_000int));
    }
    vstd::arithmetic::mul::lemma_mul_basics(one / 2);
    lemma_impulse_response(d, 0);
    assert(echo_level(0, d.delay) == 0) by (nonlinear_arith)
        requires
            d.delay == t * one,
            t >= 1,
            one == 1_000_000,
    ;
    assert forall|j: nat| 1 <= j < t implies (#[trigger] delay_silence(delay_feed(d, ONE as int), j)).sample
        == 0 by {
        lemma_impulse_response(d, j);
        assert(echo_level(j as int, d.delay) == 0) by (nonlinear_arith)
            requires
                d.delay == t * one,
                1 <= j < t,
                one == 1_000_000,
        ;
    }
    lemma_impulse_response(d, t);
    assert(echo_level(t as int, d.delay) == one) by (nonlinear_arith)
        requires
            d.delay == t * one,
            one == 1_000_000,
    ;
}

/// The wet level an impulse reaches `k` samples after it on a line of delay
/// `delay`: 1.0 at distance 0 from the delay, falling linearly to 0 at a
/// distance of one sample, 0 beyond.
pub open spec fn echo_level(k: int, delay: int) -> int {
    let dist = if k * ONE >= delay { k * ONE - delay } else { delay - k * ONE };
    if dist >= ONE as int {
        0
    } else {
        ONE - dist
    }
}

/// `x % n` for `x` within one cycle of `[0, n)`.
proof fn lemma_mod_near(x: int, n: int)
    requires
        n >= 1,
        -n <= x < 2 * n,
    ensures
        x % n == (if x < 0 { x + n } else if x >= n { x - n } else { x }),
{
    if x < 0 {
        vstd::arithmetic::div_mod::lemma_fundamental_div_mod_converse(x, n, -1, x + n);
    } else if x >= n {
        vstd::arithmetic::div_mod::lemma_fundamental_div_mod_converse(x, n, 1, x - n);
    } else {
        vstd::arithmetic::div_mod::lemma_fundamental_div_mod_converse(x, n, 0, x);
    }
}

/// Where the line reads, `k` samples after writing cell `w`: the offset
/// `k - delay` split into whole cells `a` and a fraction `b`.
proof fn lemma_read_split(p: int, w: int, k: int, delay: int, n: int)
    requires
        n >= 1,
        0 <= w < n,
        0 <= k,
        p == (w + k) % n,
    ensures
        ({
            let one = ONE as int;
            let a = (k * one - delay) / one;
            let b = (k * one - delay) % one;
            let pos = read_position(p, delay, n);
            &&& pos / one == (w + a) % n
            &&& pos % one == b
            &&& 0 <= b < one
            &&& k * one - delay == a * one + b
        }),
{
    let one = ONE as int;
    let dl = k * one - delay;
    let a = dl / one;
    let b = dl % one;
    vstd::arithmetic::div_mod::lemma_fundamental_div_mod(dl, one);
    vstd::arithmetic::div_mod::lemma_mod_bound(dl, one);
    let c = (w + k) / n;
    vstd::arithmetic::div_mod::lemma_fundamental_div_mod(w + k, n);
    let m = (w + a) / n;
    let r0 = (w + a) % n;
    vstd::arithmetic::div_mod::lemma_fundamental_div_mod(w + a, n);
    vstd::arithmetic::div_mod::lemma_mod_bound(w + a, n);
    vstd::arithmetic::div_mod::lemma_mod_bound(w + k, n);
    let x = p * one - delay;
    assert(x == (m - c) * (n * one) + (r0 * one + b)) by (nonlinear_arith)
        requires
            w + k == n * c + p,
            w + a == n * m + r0,
            dl == one * a + b,
            dl == k * one - delay,
            x == p * one - delay,
    ;
    assert(0 <= r0 * one + b < n * one) by (nonlinear_arith)
        requires
            0 <= r0 < n,
            0 <= b < one,
    ;
    vstd::arithmetic::div_mod::lemma_fundamental_div_mod_converse(x, n * one, m - c, r0 * one + b);
    vstd::arithmetic::div_mod::lemma_fundamental_div_mod_converse(r0 * one + b, one, r0, b);
}

/// The memory of a silent line after an impulse at cell `w` and `j` samples
/// of silence: only the impulse's cell is set.
proof fn lemma_impulse_memory(d: DelayView, j: nat)
    requires
        delay_wf(d),
        forall|i: int| 0 <= i < d.memory.len() ==> #[trigger] d.memory[i] == 0,
        j < d.memory.len(),
    ensures
        ({
            let n = d.memory.len() as int;
            let dj = delay_silence(delay_feed(d, ONE as int), j);
            &&& dj.memory == Seq::new(n as nat, |i: int| 0int).update(d.write_idx, ONE as int)
            &&& dj.write_idx == (d.write_idx + 1 + j) % n
            &&& dj.delay == d.delay
        }),
    decreases j,
{
    let n = d.memory.len() as int;
    let w = d.write_idx;
    let zeros = Seq::new(n as nat, |i: int| 0int);
    assert(d.memory =~= zeros);
    if j == 0 {
        assert(delay_feed(d, ONE as int).memory =~= zeros.update(w, ONE as int));
    } else {
        let j1 = (j - 1) as nat;
        lemma_impulse_memory(d, j1);
        lemma_silence_last(delay_feed(d, ONE as int), j1);
        lemma_mod_near(w + 1 + j1, n);
        lemma_mod_near(w + 1 + j, n);
        let p = (w + 1 + j1) % n;
        lemma_mod_near(p + 1, n);
        let mem = zeros.update(w, ONE as int);
        assert(p != w);
        assert(mem.update(p, 0) =~= mem);
    }
}

/// The wet level read `k` samples after an impulse written at cell `w`.
proof fn lemma_impulse_wet(w: int, k: int, delay: int, n: int)
    requires
        n >= 1,
        0 <= w < n,
        0 <= k < n,
        0 <= delay <= (n - 1) * ONE,
    ensures
        ({
            let mem = Seq::new(n as nat, |i: int| 0int).update(w, ONE as int);
            let pos = read_position((w + k) % n, delay, n);
            let i0 = pos / ONE as int;
            let i1 = (i0 + 1) % n;
            lerp_spec(mem[i0], mem[i1], pos % ONE as int) == echo_level(k, delay)
        }),
{
    let one = ONE as int;
    let mem = Seq::new(n as nat, |i: int| 0int).update(w, one);
    let p = (w + k) % n;
    lemma_read_split(p, w, k, delay, n);
    let a = (k * one - delay) / one;
    let b = (k * one - delay) % one;
    let pos = read_position(p, delay, n);
    assert(-(n - 1) * one <= k * one - delay <= (n - 1) * one) by (nonlinear_arith)
        requires
            0 <= k < n,
            0 <= delay <= (n - 1) * one,
    ;
    assert(-(n - 1) <= a <= n - 1) by (nonlinear_arith)
        requires
            -(n - 1) * one <= a * one + b <= (n - 1) * one,
            0 <= b < one,
            one > 0,
    ;
    lemma_mod_near(w + a, n);
    let i0 = (w + a) % n;
    lemma_mod_near(i0 + 1, n);
    let i1 = (i0 + 1) % n;
    assert(pos / one == i0 && pos % one == b);
    if a == 0 {
        if n == 1 {
            assert(b == 0) by (nonlinear_arith)
                requires
                    0 <= k < 1,
                    delay == 0,
                    k * one - delay == 0 * one + b,
            ;
            vstd::arithmetic::mul::lemma_mul_basics(mem[i1] - mem[i0]);
        } else {
            assert(i1 != w);
            assert(b * (0 - one) == (-b) * one) by (nonlinear_arith);
            vstd::arithmetic::div_mod::lemma_div_multiples_vanish(-b, one);
            assert((-b) * one == one * (-b)) by (nonlinear_arith);
        }
    } else if a == -1 {
        assert(n >= 2) by (nonlinear_arith)
            requires
                -(n - 1) <= a,
                a == -1,
        ;
        assert(i0 != w && i1 == w);
        assert(b * (one - 0) == one * b) by (nonlinear_arith);
        vstd::arithmetic::div_mod::lemma_div_multiples_vanish(b, one);
    } else {
        assert(i0 != w);
        if i1 == w {
            assert(a == n - 1);
            assert(b == 0) by (nonlinear_arith)
                requires
                    a * one + b <= (n - 1) * one,
                    a == n - 1,
                    0 <= b,
            ;
            vstd::arithmetic::mul::lemma_mul_basics(mem[i1] - mem[i0]);
        } else {
            vstd::arithmetic::mul::lemma_mul_basics(b);
        }
        assert(a >= 1 ==> k * one - delay >= one) by (nonlinear_arith)
            requires
                k * one - delay == a * one + b,
                0 <= b,
                one > 0,
        ;
        assert(a <= -2 ==> k * one - delay <= -one) by (nonlinear_arith)
            requires
                k * one - delay == a * one + b,
                b < one,
                one > 0,
        ;
    }
}

/// The impulse response of the line, for any delay it can hold: on a silent
/// line, a unit impulse followed by silence gives, `k` samples after the
/// impulse, the 50/50 mix of the input (the impulse at `k == 0`, then 0)
/// with the echo: the impulse linearly interpolated at time `k - delay`.
pub proof fn lemma_impulse_response(d: DelayView, k: nat)
    requires
        delay_wf(d),
        forall|i: int| 0 <= i < d.memory.len() ==> #[trigger] d.memory[i] == 0,
        k < d.memory.len(),
    ensures
        k == 0 ==> delay_feed(d, ONE as int).sample == lerp_spec(
            ONE as int,
            echo_level(0, d.delay),
            ONE as int / 2,
        ),
        k >= 1 ==> delay_silence(delay_feed(d, ONE as int), k).sample == lerp_spec(
            0,
            echo_level(k as int, d.delay),
            ONE as int / 2,
        ),
{
    let n = d.memory.len() as int;
    let w = d.write_idx;
    let zeros = Seq::new(n as nat, |i: int| 0int);
    assert(d.memory =~= zeros);
    if k == 0 {
        lemma_impulse_wet(w, 0, d.delay, n);
        vstd::arithmetic::div_mod::lemma_small_mod(w as nat, n as nat);
    } else {
        let j1 = (k - 1) as nat;
        lemma_impulse_memory(d, j1);
        lemma_silence_last(delay_feed(d, ONE as int), j1);
        lemma_mod_near(w + 1 + j1, n);
        lemma_mod_near(w + k, n);
        let p = (w + 1 + j1) % n;
        let mem = zeros.update(w, ONE as int);
        assert(p != w);
        assert(mem.update(p, 0) =~= mem);
        lemma_impulse_wet(w, k as int, d.delay, n);
    }
}

/// A consistent delay line: cursors within the buffer, the delay within its
/// capacity, every sample within `LIMIT`.
pub open spec fn delay_wf(d: DelayView) -> bool {
    let n = d.memory.len() as int;
    &&& 1 <= n <= MAX_CAPACITY as int
    &&& 0 <= d.write_idx < n
    &&& 0 <= d.delay <= (n - 1) * ONE as int
    &&& 0 <= d.read_pos < n * ONE as int
    &&& in_limit(d.sample)
    &&& forall|i: int| 0 <= i < n ==> #[trigger] in_limit(d.memory[i])
    &&& d.sample_rate <= u32::MAX
}

impl View for Delay {
    type V = DelayView;

    closed spec fn view(&self) -> DelayView {
        DelayView {
            sample: self.sample as int,
            delay: self.delay_ticks as int,
            sample_rate: self.sample_rate as nat,
            memory: self.memory@.map_values(|x: i32| x as int),
            read_pos: self.read_idx as int,
            write_idx: self.write_idx as int,
        }
    }
}

impl Delay {
    /// A silent line of `capacity` cells at 44.1 kHz, with no delay.
    pub fn new(capacity: usize) -> (r: Delay)
        requires
            1 <= capacity <= MAX_CAPACITY,
        ensures
            delay_wf(r@),
            r@.memory == Seq::new(capacity as nat, |i: int| 0int),
            r@.sample == 0,
            r@.delay == 0,
            r@.sample_rate == 44_100,
            r@.read_pos == 0,
            r@.write_idx == 0,
    {
        let mut memory: Vec<i32> = Vec::new();
        let mut i: usize = 0;
        while i < capacity
            invariant
                i <= capacity,
                memory@.len() == i,
                forall|j: int| 0 <= j < i ==> memory@[j] == 0,
            decreases capacity - i,
        {
            memory.push(0);
            i = i + 1;
        }
        let r = Delay {
            sample: 0,
            delay_ticks: 0,
            sample_rate: 44_100,
            memory,
            read_idx: 0,
            write_idx: 0,
        };
        assert(r@.memory =~= Seq::new(capacity as nat, |i: int| 0int));
        r
    }

    /// Records the sample rate used by later delay-time writes.
    pub fn prepare(&mut self, sample_rate: u32)
        ensures
            final(self)@ == (DelayView { sample_rate: sample_rate as nat, ..old(self)@ }),
    {
        self.sample_rate = sample_rate;
    }

    /// Sets the delay from a time in fixed-point milliseconds, converted at
    /// the current sample rate and held within the buffer.
    pub fn set_time(&mut self, time_ms: i32)
        requires
            delay_wf(old(self)@),
        ensures
            delay_wf(final(self)@),
            final(self)@ == (DelayView {
                delay: delay_ticks_for(
                    time_ms as int,
                    old(self)@.sample_rate as int,
                    old(self)@.memory.len() as int,
                ),
                ..old(self)@
            }),
    {
        let n = self.memory.len();
        proof {
            assert(-2_147_483_648 * 4_294_967_295 <= time_ms as int * self.sample_rate as int
                <= 2_147_483_647 * 4_294_967_295) by (nonlinear_arith)
                requires
                    -2_147_483_648 <= time_ms <= 2_147_483_647,
                    0 <= self.sample_rate <= 4_294_967_295,
            ;
        }
        let scaled: i64 = time_ms as i64 * self.sample_rate as i64;
        let ticks: i64 = floor_div(scaled as i128, 1000) as i64;
        let top: i64 = (n as i64 - 1) * ONE as i64;
        self.delay_ticks = if ticks < 0 {
            0
        } else if ticks > top {
            top
        } else {
            ticks
        };
    }

    /// Sets the dry input for the next `process`.
    pub fn set_sample(&mut self, sample: i32)
        requires
            delay_wf(old(self)@),
            in_limit(sample as int),
        ensures
            delay_wf(final(self)@),
            final(self)@ == (DelayView { sample: sample as int, ..old(self)@ }),
    {
        self.sample = sample;
    }

    /// The output of the last `process`.
    pub fn output(&self) -> (r: i32)
        ensures
            r as int == self@.sample,
    {
        self.sample
    }

    /// Computes one sample.
    pub fn process(&mut self)
        requires
            delay_wf(old(self)@),
        ensures
            delay_wf(final(self)@),
            final(self)@ == delay_step(old(self)@),
    {
        let ghost d = self@;
        let n = self.memory.len();
        let w = self.write_idx;
        self.memory.set(w, self.sample);
        assert(self@.memory =~= d.memory.update(d.write_idx, d.sample));
        let span: i64 = n as i64 * ONE as i64;
        let back: i64 = w as i64 * ONE as i64 - self.delay_ticks;
        let pos: i64 = if back < 0 {
            back + span
        } else {
            back
        };
        proof {
            let ni = n as int;
            let one = ONE as int;
            let p = w as int * one - d.delay;
            assert(-ni * one < p && p < ni * one) by (nonlinear_arith)
                requires
                    0 <= w < ni,
                    0 <= d.delay <= (ni - 1) * one,
                    p == w as int * one - d.delay,
                    one > 0,
            ;
            if p < 0 {
                vstd::arithmetic::div_mod::lemma_fundamental_div_mod_converse(
                    p,
                    ni * one,
                    -1,
                    p + ni * one,
                );
            } else {
                vstd::arithmetic::div_mod::lemma_small_mod(p as nat, (ni * one) as nat);
            }
            assert(pos as int == read_position(w as int, d.delay, ni));
            assert(pos as int / one < ni) by {
                vstd::arithmetic::div_mod::lemma_div_by_multiple_is_strongly_ordered(
                    pos as int,
                    ni * one,
                    ni,
                    one,
                );
            }
        }
        let i0: usize = (pos / ONE as i64) as usize;
        let i1: usize = if i0 + 1 == n {
            0
        } else {
            i0 + 1
        };
        proof {
            if i0 + 1 == n {
                vstd::arithmetic::div_mod::lemma_mod_self_0(n as int);
            } else {
                vstd::arithmetic::div_mod::lemma_small_mod((i0 + 1) as nat, n as nat);
            }
        }
        let frac: i32 = (pos % ONE as i64) as i32;
        let a: i32 = self.memory[i0];
        let b: i32 = self.memory[i1];
        assert(in_limit(self@.memory[i0 as int]) && in_limit(self@.memory[i1 as int]));
        assert(a as int == self@.memory[i0 as int] && b as int == self@.memory[i1 as int]);
        let wet = lerp(a, b, frac);
        self.sample = lerp(self.sample, wet, ONE / 2);
        self.read_idx = pos;
        self.write_idx = if w + 1 == n {
            0
        } else {
            w + 1
        };
        proof {
            if w + 1 == n {
                vstd::arithmetic::div_mod::lemma_mod_self_0(n as int);
            } else {
                vstd::arithmetic::div_mod::lemma_small_mod((w + 1) as nat, n as nat);
            }
        }
    }
}

impl Default for Delay {
    /// One second of buffer at 44.1 kHz.
    fn default() -> (r: Delay)
        ensures
            delay_wf(r@),
            r@.memory == Seq::new(DEFAULT_CAPACITY as nat, |i: int| 0int),
            r@.sample == 0,
            r@.delay == 0,
            r@.sample_rate == 44_100,
            r@.read_pos == 0,
            r@.write_idx == 0,
    {
        Delay::new(DEFAULT_CAPACITY)
    }
}

} // verus!
