use vstd::prelude::*;

use crate::fixed::{clamp, clamp_spec, floor_div};

verus! {

/// Largest number of pending values a control input may queue.
pub const MAX_QUEUE: usize = 65_536;

/// How a control input's value lives.
#[derive(Clone, Copy, Debug, PartialEq, Eq, Structural)]
pub enum InputKind {
    /// Holds its value until overwritten.
    Continuous,
    /// A one-shot event, reset by the unit that consumes it.
    Trigger,
}

/// A write found the queue full; the value was dropped.
#[derive(Clone, Copy, Debug, PartialEq, Eq, Structural)]
pub struct QueueFull;

/// A control input that cannot be built.
#[derive(Clone, Copy, Debug, PartialEq, Eq, Structural)]
pub enum InputError {
    /// The range's low end lies above its high end.
    EmptyRange,
    /// The queue capacity is 0 or above `MAX_QUEUE`.
    BadCapacity,
}

/// What a control input is, as seen from outside.
pub ghost struct ControlView {
    /// Values written and not yet drained, oldest first.
    pub pending: Seq<int>,
    pub capacity: nat,
    /// The value exposed to the graph.
    pub value: int,
    /// The value the smoothing ramp moves toward.
    pub target: int,
    pub lo: int,
    pub hi: int,
    /// Steps of the smoothing ramp; 0 or 1 exposes a new value at once.
    pub window: nat,
    pub kind: InputKind,
}

/// A control value as the bridge accepts it: clamped into the range.
pub open spec fn accepted(c: ControlView, v: int) -> int {
    clamp_spec(v, c.lo, c.hi)
}

/// One non-blocking write: the clamped value joins the queue, unless the
/// queue is full (then nothing changes and the write reports failure).
pub open spec fn write_step(c: ControlView, v: int) -> (ControlView, bool) {
    if c.pending.len() < c.capacity {
        (ControlView { pending: c.pending.push(accepted(c, v)), ..c }, true)
    } else {
        (c, false)
    }
}

/// A burst of writes in order, with the number of them that were accepted.
pub open spec fn write_burst(c: ControlView, vals: Seq<int>) -> (ControlView, nat)
    decreases vals.len(),
{
    if vals.len() == 0 {
        (c, 0)
    } else {
        let before = write_burst(c, vals.drop_last());
        let after = write_step(before.0, vals.last());
        (after.0, before.1 + if after.1 { 1nat } else { 0nat })
    }
}

/// One smoothing step from `value` toward `target`: `1/window` of the
/// remaining distance, rounded toward the target (so any remaining
/// distance shrinks by at least one unit); no ramp below a window of 2.
pub open spec fn smooth_step(value: int, target: int, window: nat) -> int {
    if window <= 1 {
        target
    } else if target >= value {
        value - (value - target) / (window as int)
    } else {
        value + (target - value) / (window as int)
    }
}

/// The per-block drain: the queue empties, its newest value (if any)
/// becomes the target, and the exposed value takes one smoothing step
/// (a trigger exposes its target at once).
pub open spec fn drain_step(c: ControlView) -> ControlView {
    let target = if c.pending.len() > 0 { c.pending.last() } else { c.target };
    ControlView {
        pending: Seq::empty(),
        target,
        value: if c.kind == InputKind::Trigger { target } else { smooth_step(c.value, target, c.window) },
        ..c
    }
}

/// Burst overflow: writing more values than the queue holds into an empty
/// queue accepts exactly `capacity` of them (the first ones, clamped) and
/// reports every later one full; one drain then targets the last accepted
/// value, and exposes it at once where no smoothing window applies.
pub proof fn lemma_burst_overflow(c: ControlView, vals: Seq<int>)
    requires
        control_wf(c),
        c.pending.len() == 0,
        vals.len() > c.capacity,
    ensures
        write_burst(c, vals).1 == c.capacity,
        vals.len() - write_burst(c, vals).1 == vals.len() - c.capacity,
        write_burst(c, vals).0.pending == vals.take(c.capacity as int).map_values(
            |v: int| accepted(c, v),
        ),
        drain_step(write_burst(c, vals).0).target == accepted(c, vals[c.capacity - 1]),
        c.window <= 1 || c.kind == InputKind::Trigger ==> drain_step(write_burst(c, vals).0).value
            == accepted(c, vals[c.capacity - 1]),
{
    lemma_burst_prefix(c, vals, vals.len() as nat);
    assert(vals.take(vals.len() as int) =~= vals);
}

/// The first `k` writes of a burst into an empty queue.
proof fn lemma_burst_prefix(c: ControlView, vals: Seq<int>, k: nat)
    requires
        control_wf(c),
        c.pending.len() == 0,
        k <= vals.len(),
    ensures
        ({
            let m = if k < c.capacity { k } else { c.capacity };
            write_burst(c, vals.take(k as int)) == (ControlView {
                pending: vals.take(m as int).map_values(|v: int| accepted(c, v)),
                ..c
            }, m)
        }),
    decreases k,
{
    if k == 0 {
        assert(vals.take(0).map_values(|v: int| accepted(c, v)) =~= c.pending);
    } else {
        let k1 = (k - 1) as nat;
        lemma_burst_prefix(c, vals, k1);
        assert(vals.take(k as int).drop_last() =~= vals.take(k1 as int));
        assert(vals.take(k as int).last() == vals[k1 as int]);
        if k1 < c.capacity {
            assert(vals.take(k1 as int).map_values(|v: int| accepted(c, v)).push(
                accepted(c, vals[k1 as int]),
            ) =~= vals.take(k as int).map_values(|v: int| accepted(c, v)));
        }
    }
}

/// A consistent control input.
pub open spec fn control_wf(c: ControlView) -> bool {
    &&& 1 <= c.capacity <= MAX_QUEUE
    &&& c.pending.len() <= c.capacity
    &&& i32::MIN <= c.lo <= c.hi <= i32::MAX
    &&& c.lo <= c.value <= c.hi
    &&& c.lo <= c.target <= c.hi
    &&& forall|i: int| 0 <= i < c.pending.len() ==> c.lo <= #[trigger] c.pending[i] <= c.hi
    &&& c.window <= u32::MAX
}

/// A control input: a bounded queue written by the control side and drained
/// once per block by the audio side, with range clamping and a linear
/// smoothing ramp.
pub struct ControlInput {
    buf: Vec<i32>,
    head: usize,
    len: usize,
    value: i32,
    target: i32,
    lo: i32,
    hi: i32,
    window: u32,
    kind: InputKind,
}

impl View for ControlInput {
    type V = ControlView;

    closed spec fn view(&self) -> ControlView {
        ControlView {
            pending: Seq::new(
                self.len as nat,
                |i: int| self.buf@[(self.head + i) % (self.buf@.len() as int)] as int,
            ),
            capacity: self.buf@.len(),
            value: self.value as int,
            target: self.target as int,
            lo: self.lo as int,
            hi: self.hi as int,
            window: self.window as nat,
            kind: self.kind,
        }
    }
}

impl ControlInput {
    closed spec fn inv(&self) -> bool {
        &&& 1 <= self.buf@.len() <= MAX_QUEUE
        &&& self.head < self.buf@.len()
        &&& self.len <= self.buf@.len()
        &&& control_wf(self@)
    }

    /// Well formed: what every constructor gives and every method keeps.
    pub closed spec fn wf(&self) -> bool {
        self.inv()
    }

    pub proof fn lemma_wf(&self)
        requires
            self.wf(),
        ensures
            control_wf(self@),
    {
    }

    /// Builds an input with its initial value (clamped into `range`, if one
    /// is given), smoothing window and queue capacity.
    pub fn new(init: i32, range: Option<(i32, i32)>, window: u32, kind: InputKind, capacity: usize) -> (r:
        Result<ControlInput, InputError>)
        ensures
            match range {
                Some((lo, hi)) => lo > hi <==> r == Err::<ControlInput, InputError>(InputError::EmptyRange),
                None => !(r is Err && r->Err_0 == InputError::EmptyRange),
            },
            (range is None || range->Some_0.0 <= range->Some_0.1) && !(1 <= capacity <= MAX_QUEUE)
                <==> r == Err::<ControlInput, InputError>(InputError::BadCapacity),
            r is Ok ==> {
                let c = r->Ok_0@;
                let (lo, hi) = match range {
                    Some((lo, hi)) => (lo as int, hi as int),
                    None => (i32::MIN as int, i32::MAX as int),
                };
                &&& r->Ok_0.wf()
                &&& c.pending == Seq::<int>::empty()
                &&& c.capacity == capacity
                &&& c.lo == lo
                &&& c.hi == hi
                &&& c.value == clamp_spec(init as int, lo, hi)
                &&& c.target == c.value
                &&& c.window == window
                &&& c.kind == kind
            },
    {
        let (lo, hi) = match range {
            Some((lo, hi)) => (lo, hi),
            None => (i32::MIN, i32::MAX),
        };
        if lo > hi {
            return Err(InputError::EmptyRange);
        }
        if capacity == 0 || capacity > MAX_QUEUE {
            return Err(InputError::BadCapacity);
        }
        let mut buf: Vec<i32> = Vec::new();
        let mut i: usize = 0;
        while i < capacity
            invariant
                i <= capacity,
                buf@.len() == i,
            decreases capacity - i,
        {
            buf.push(0);
            i = i + 1;
        }
        let v = clamp(init, lo, hi);
        let r = ControlInput { buf, head: 0, len: 0, value: v, target: v, lo, hi, window, kind };
        assert(r@.pending =~= Seq::<int>::empty());
        Ok(r)
    }

    /// The value exposed to the graph.
    pub fn value(&self) -> (r: i32)
        ensures
            r as int == self@.value,
    {
        self.value
    }

    pub fn kind(&self) -> (r: InputKind)
        ensures
            r == self@.kind,
    {
        self.kind
    }

    /// Number of values waiting to be drained.
    pub fn pending(&self) -> (r: usize)
        ensures
            r as int == self@.pending.len(),
    {
        self.len
    }

    /// Non-blocking write from the control side: the value, clamped into the
    /// range, is queued; on a full queue it is dropped and `QueueFull` comes
    /// back.
    pub fn try_write(&mut self, v: i32) -> (r: Result<(), QueueFull>)
        requires
            old(self).wf(),
        ensures
            final(self).wf(),
            (final(self)@, r is Ok) == write_step(old(self)@, v as int),
    {
        let n = self.buf.len();
        if self.len >= n {
            return Err(QueueFull);
        }
        let ghost before = self@;
        let slot: usize = if self.head + self.len >= n {
            self.head + self.len - n
        } else {
            self.head + self.len
        };
        let c = clamp(v, self.lo, self.hi);
        self.buf.set(slot, c);
        self.len = self.len + 1;
        proof {
            let ni = n as int;
            if self.head + self.len - 1 >= ni {
                vstd::arithmetic::div_mod::lemma_fundamental_div_mod_converse(
                    self.head + self.len - 1,
                    ni,
                    1,
                    slot as int,
                );
            } else {
                vstd::arithmetic::div_mod::lemma_small_mod(slot as nat, n as nat);
            }
            assert forall|i: int| 0 <= i < before.pending.len() implies #[trigger] self@.pending[i]
                == before.pending[i] by {
                if self.head + i >= ni {
                    vstd::arithmetic::div_mod::lemma_fundamental_div_mod_converse(
                        self.head + i,
                        ni,
                        1,
                        self.head + i - ni,
                    );
                } else {
                    vstd::arithmetic::div_mod::lemma_small_mod((self.head + i) as nat, n as nat);
                }
            }
            assert(self@.pending =~= before.pending.push(c as int));
        }
        Ok(())
    }

    /// The audio side's once-per-block step: takes every pending value, keeps
    /// the newest as the target, and advances the exposed value one smoothing
    /// step. Returns the newest value taken, if there was one.
    pub fn drain(&mut self) -> (r: Option<i32>)
        requires
            old(self).wf(),
        ensures
            final(self).wf(),
            final(self)@ == drain_step(old(self)@),
            old(self)@.pending.len() == 0 <==> r is None,
            r is Some ==> r->Some_0 as int == old(self)@.pending.last(),
    {
        let ghost before = self@;
        let n = self.buf.len();
        let mut newest: Option<i32> = None;
        if self.len > 0 {
            let last: usize = if self.head + self.len - 1 >= n {
                self.head + self.len - 1 - n
            } else {
                self.head + self.len - 1
            };
            proof {
                let ni = n as int;
                if self.head + self.len - 1 >= ni {
                    vstd::arithmetic::div_mod::lemma_fundamental_div_mod_converse(
                        self.head + self.len - 1,
                        ni,
                        1,
                        last as int,
                    );
                } else {
                    vstd::arithmetic::div_mod::lemma_small_mod(last as nat, n as nat);
                }
            }
            let v = self.buf[last];
            self.target = v;
            newest = Some(v);
            self.head = if last + 1 == n {
                0
            } else {
                last + 1
            };
            self.len = 0;
        }
        if self.kind == InputKind::Trigger || self.window <= 1 {
            self.value = self.target;
        } else {
            let diff: i64 = self.target as i64 - self.value as i64;
            let step: i64 = if diff >= 0 {
                proof {
                    lemma_step_between(-diff as int, self.window as int);
                }
                -(floor_div(-diff as i128, self.window as i128) as i64)
            } else {
                proof {
                    lemma_step_between(diff as int, self.window as int);
                }
                floor_div(diff as i128, self.window as i128) as i64
            };
            self.value = (self.value as i64 + step) as i32;
        }
        assert(self@.pending =~= Seq::<int>::empty());
        newest
    }
}

/// The value a control input hands its unit on frame `frame` of a block:
/// a continuous input its exposed value on every frame; a trigger, on the
/// first frame only, the value it took this block (0 when it took none),
/// and 0 on every later frame, so that its unit sees each event once.
pub fn trigger_value(kind: InputKind, frame: usize, taken: Option<i32>, value: i32) -> (r: i32)
    ensures
        kind == InputKind::Continuous ==> r == value,
        kind == InputKind::Trigger && frame == 0 && taken is Some ==> r == taken->Some_0,
        kind == InputKind::Trigger && frame == 0 && taken is None ==> r == 0,
        kind == InputKind::Trigger && frame > 0 ==> r == 0,
{
    match kind {
        InputKind::Continuous => value,
        InputKind::Trigger => {
            if frame == 0 {
                match taken {
                    Some(v) => v,
                    None => 0,
                }
            } else {
                0
            }
        },
    }
}

/// The scheduler's first step of every block: each input, in order, drains
/// its queue once and takes one smoothing step. The result gives for each
/// input the newest value it took, if any (what a trigger hands its unit).
pub fn drain_block(inputs: &mut Vec<ControlInput>) -> (r: Vec<Option<i32>>)
    requires
        forall|i: int| 0 <= i < old(inputs)@.len() ==> (#[trigger] old(inputs)@[i]).wf(),
    ensures
        final(inputs)@.len() == old(inputs)@.len(),
        r@.len() == old(inputs)@.len(),
        forall|i: int|
            0 <= i < final(inputs)@.len() ==> {
                &&& (#[trigger] final(inputs)@[i]).wf()
                &&& final(inputs)@[i]@ == drain_step(old(inputs)@[i]@)
                &&& (old(inputs)@[i]@.pending.len() == 0 <==> r@[i] is None)
                &&& r@[i] is Some ==> r@[i]->Some_0 as int == old(inputs)@[i]@.pending.last()
            },
{
    let ghost start = inputs@;
    let total = inputs.len();
    let mut taken: Vec<ControlInput> = Vec::new();
    while inputs.len() > 0
        invariant
            inputs@.len() + taken@.len() == total,
            total == start.len(),
            inputs@ == start.subrange(0, inputs@.len() as int),
            forall|j: int| 0 <= j < taken@.len() ==> #[trigger] taken@[j] == start[total - 1 - j],
        decreases inputs@.len(),
    {
        let c = inputs.pop().unwrap();
        taken.push(c);
    }
    let mut out: Vec<Option<i32>> = Vec::new();
    while taken.len() > 0
        invariant
            inputs@.len() + taken@.len() == total,
            total == start.len(),
            out@.len() == inputs@.len(),
            forall|j: int| 0 <= j < taken@.len() ==> #[trigger] taken@[j] == start[total - 1 - j],
            forall|i: int| 0 <= i < start.len() ==> (#[trigger] start[i]).wf(),
            forall|i: int|
                0 <= i < inputs@.len() ==> {
                    &&& (#[trigger] inputs@[i]).wf()
                    &&& inputs@[i]@ == drain_step(start[i]@)
                    &&& (start[i]@.pending.len() == 0 <==> out@[i] is None)
                    &&& out@[i] is Some ==> out@[i]->Some_0 as int == start[i]@.pending.last()
                },
        decreases taken@.len(),
    {
        let mut c = taken.pop().unwrap();
        assert(c == start[inputs@.len() as int]);
        let v = c.drain();
        inputs.push(c);
        out.push(v);
    }
    out
}

/// A step of `d / w` toward a target lies between no move and the whole way.
proof fn lemma_step_between(d: int, w: int)
    requires
        w >= 1,
    ensures
        d >= 0 ==> 0 <= d / w <= d,
        d < 0 ==> d <= d / w <= 0,
{
    if d >= 0 {
        vstd::arithmetic::div_mod::lemma_div_pos_is_pos(d, w);
        vstd::arithmetic::div_mod::lemma_div_is_ordered_by_denominator(d, 1, w);
    } else {
        vstd::arithmetic::div_mod::lemma_fundamental_div_mod(d, w);
        vstd::arithmetic::div_mod::lemma_mod_bound(d, w);
        assert(d / w <= 0 && d <= d / w) by (nonlinear_arith)
            requires
                d == w * (d / w) + d % w,
                0 <= d % w < w,
                d < 0,
                w >= 1,
        ;
    }
}

} // verus!
