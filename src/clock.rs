//! The clock model: exponential arrival times resampled forward past a boundary.
use vstd::prelude::*;

verus! {

/// A positive rate `num / den`, in events per time unit.
#[derive(Clone, Copy, Debug, PartialEq, Eq, Structural)]
pub struct Rate {
    pub num: u128,
    pub den: u128,
}

impl Rate {
    pub open spec fn valid(self) -> bool {
        self.num > 0 && self.den > 0
    }

    /// The rate of recovery, fixed at one event per time unit.
    pub fn heal() -> (r: Rate)
        ensures
            r.num == 1 && r.den == 1,
            r.valid(),
    {
        Rate { num: 1, den: 1 }
    }
}

/// Errors reported when a simulation is configured.
#[derive(Clone, Copy, Debug, PartialEq, Eq, Structural)]
pub enum SimError {
    /// Some derived rate is not strictly positive.
    InvalidParameter,
}

/// A source of independent exponential waiting times.
///
/// Each call returns one draw of the exponential distribution with the given
/// rate, already converted to ticks. Nothing is assumed of the values: every
/// statement of this library holds whatever the source returns.
pub trait ExpSource {
    fn draw(&mut self, rate: Rate) -> u64;
}

/// A draw source together with the record of every draw it made: the rate
/// asked for and the value returned, oldest first.
pub struct Recorder<S> {
    source: S,
    log: Ghost<Seq<(Rate, u64)>>,
}

impl<S: ExpSource> Recorder<S> {
    /// The draws made so far, oldest first.
    pub closed spec fn log(&self) -> Seq<(Rate, u64)> {
        self.log@
    }

    pub fn new(source: S) -> (r: Recorder<S>)
        ensures
            r.log() == Seq::<(Rate, u64)>::empty(),
    {
        Recorder { source, log: Ghost(Seq::empty()) }
    }

    /// One draw at `rate`, recorded.
    pub fn draw(&mut self, rate: Rate) -> (d: u64)
        ensures
            final(self).log() == old(self).log().push((rate, d)),
    {
        let d = self.source.draw(rate);
        self.log = Ghost(self.log@.push((rate, d)));
        d
    }
}

/// The step a clock makes for one draw: the draw itself, but at least one tick,
/// so that every arrival lies strictly after the one before it.
pub open spec fn step_of(draw: u64) -> u64 {
    if draw == 0 {
        1
    } else {
        draw
    }
}

/// The next arrival after `current`, saturating at `u64::MAX` (which stands
/// for "never").
pub open spec fn next_after(current: u64, draw: u64) -> u64 {
    if current as int + step_of(draw) as int > u64::MAX as int {
        u64::MAX
    } else {
        (current + step_of(draw)) as u64
    }
}

/// The arrival that follows `current` by one exponential waiting time.
pub fn next_arrival<S: ExpSource>(current: u64, rate: Rate, src: &mut Recorder<S>) -> (r: u64)
    requires
        rate.valid(),
    ensures
        current < u64::MAX ==> r > current,
        r >= current,
        final(src).log() == old(src).log().push((rate, final(src).log().last().1)),
        r == next_after(current, final(src).log().last().1),
{
    let d = src.draw(rate);
    let step: u64 = if d == 0 {
        1
    } else {
        d
    };
    current.saturating_add(step)
}

/// The value reached from `c` by one step per draw of `ds`, in order.
pub open spec fn arrival_after(c: u64, ds: Seq<(Rate, u64)>) -> u64
    decreases ds.len(),
{
    if ds.len() == 0 {
        c
    } else {
        next_after(arrival_after(c, ds.drop_last()), ds.last().1)
    }
}

/// `c1` is the first arrival at or after `t` reached from `c0` through the
/// draws `ds`, all at `rate`: every value before the last stays below `t`,
/// and no draw is made from a value already at or past `t`.
pub open spec fn first_arrival_by(c0: u64, ds: Seq<(Rate, u64)>, rate: Rate, t: u64, c1: u64) -> bool {
    &&& c1 == arrival_after(c0, ds)
    &&& c1 >= t
    &&& forall|k: int| 0 <= k < ds.len() ==> (#[trigger] ds[k]).0 == rate
    &&& forall|n: int| 0 <= n < ds.len() ==> #[trigger] arrival_after(c0, ds.take(n)) < t
    &&& c0 < t ==> ds.len() > 0
}

/// The draw sequences of `segs`, one after another.
pub open spec fn concat(segs: Seq<Seq<(Rate, u64)>>) -> Seq<(Rate, u64)>
    decreases segs.len(),
{
    if segs.len() == 0 {
        Seq::empty()
    } else {
        concat(segs.drop_last()) + segs.last()
    }
}

/// The draws that `post` recorded after the first `n`.
pub open spec fn new_draws(post: Seq<(Rate, u64)>, n: nat) -> Seq<(Rate, u64)> {
    post.subrange(n as int, post.len() as int)
}

/// Adds exponential waiting times to `current` until the value reaches
/// `boundary`, and returns the first value that does.
///
/// A value already at or past the boundary is returned unchanged, with no
/// draw; otherwise at least one draw is made, every draw is at `rate`, the
/// result is `current` moved on by each of them in turn, and every value
/// before the last stays below `boundary`.
pub fn advance_forward<S: ExpSource>(current: u64, rate: Rate, boundary: u64, src: &mut Recorder<S>) -> (r: u64)
    requires
        rate.valid(),
    ensures
        r >= boundary,
        r >= current,
        current >= boundary ==> r == current,
        current >= boundary ==> final(src).log() == old(src).log(),
        final(src).log().len() >= old(src).log().len(),
        final(src).log().subrange(0, old(src).log().len() as int) == old(src).log(),
        forall|k: int| old(src).log().len() <= k < final(src).log().len() ==> (#[trigger] final(src).log()[k]).0 == rate,
        ({
            let ds = new_draws(final(src).log(), old(src).log().len());
            &&& final(src).log() == old(src).log() + ds
            &&& first_arrival_by(current, ds, rate, boundary, r)
            &&& r == arrival_after(current, ds)
            &&& current < boundary ==> ds.len() > 0
            &&& forall|n: int| 0 <= n < ds.len() ==> #[trigger] arrival_after(current, ds.take(n)) < boundary
        }),
{
    let ghost base = src.log();
    let ghost mut drawn: Seq<(Rate, u64)> = Seq::empty();
    assert(src.log() =~= base + drawn);
    let mut value = current;
    while value < boundary
        invariant
            rate.valid(),
            src.log() == base + drawn,
            base == old(src).log(),
            value == arrival_after(current, drawn),
            value >= current,
            drawn.len() == 0 ==> value == current,
            current >= boundary ==> drawn.len() == 0,
            forall|k: int| 0 <= k < drawn.len() ==> (#[trigger] drawn[k]).0 == rate,
            forall|n: int| 0 <= n < drawn.len() ==> #[trigger] arrival_after(current, drawn.take(n)) < boundary,
        decreases if value < boundary { boundary - value } else { 0 },
    {
        let ghost prev_drawn = drawn;
        let prev = value;
        value = next_arrival(value, rate, src);
        proof {
            drawn = drawn.push(src.log().last());
            assert(src.log() =~= base + drawn);
            assert(drawn.drop_last() =~= prev_drawn);
            assert forall|n: int| 0 <= n < drawn.len() implies #[trigger] arrival_after(current, drawn.take(n)) < boundary by {
                if n == prev_drawn.len() {
                    assert(drawn.take(n) =~= prev_drawn);
                } else {
                    assert(drawn.take(n) =~= prev_drawn.take(n));
                }
            }
            assert forall|k: int| 0 <= k < drawn.len() implies (#[trigger] drawn[k]).0 == rate by {
                if k < prev_drawn.len() {
                    assert(drawn[k] == prev_drawn[k]);
                }
            }
        }
    }
    proof {
        let ds = new_draws(src.log(), base.len());
        assert(ds =~= drawn);
        if current >= boundary {
            assert(src.log() =~= base);
        }
        assert(src.log().subrange(0, base.len() as int) =~= base);
        assert forall|k: int| base.len() <= k < src.log().len() implies (#[trigger] src.log()[k]).0 == rate by {
            assert(src.log()[k] == drawn[k - base.len()]);
        }
    }
    value
}

/// A source that replays a fixed, nonempty list of draws, cyclically.
///
/// Two simulations driven by equal replay sources see the same draws.
#[derive(Debug)]
pub struct ScriptedSource {
    draws: Vec<u64>,
    next: usize,
}

impl ScriptedSource {
    pub closed spec fn script(&self) -> Seq<u64> {
        self.draws@
    }

    pub closed spec fn position(&self) -> int {
        self.next as int
    }

    /// A source that replays `draws`, or the single draw `1` when `draws` is empty.
    pub fn new(draws: Vec<u64>) -> (r: ScriptedSource)
        ensures
            draws@.len() > 0 ==> r.script() == draws@,
            draws@.len() == 0 ==> r.script() == seq![1u64],
            r.position() == 0,
    {
        if draws.len() == 0 {
            ScriptedSource { draws: vec![1u64], next: 0 }
        } else {
            ScriptedSource { draws, next: 0 }
        }
    }

    /// The next draw of the script; the rate plays no part.
    pub fn next_draw(&mut self) -> (r: u64)
        ensures
            old(self).position() < old(self).script().len() ==> r == old(self).script()[old(self).position()],
            old(self).position() < old(self).script().len() ==> final(self).position() == (old(self).position() + 1) % (old(self).script().len() as int),
            final(self).script() == old(self).script(),
    {
        if self.next >= self.draws.len() {
            self.next = 0;
        }
        if self.draws.len() == 0 {
            return 1;
        }
        let r = self.draws[self.next];
        let len = self.draws.len();
        proof {
            if self.next + 1 < len {
                vstd::arithmetic::div_mod::lemma_small_mod((self.next + 1) as nat, len as nat);
            } else {
                vstd::arithmetic::div_mod::lemma_mod_self_0(len as int);
            }
        }
        self.next = if self.next + 1 < len { self.next + 1 } else { 0 };
        r
    }
}

impl ExpSource for ScriptedSource {
    fn draw(&mut self, rate: Rate) -> u64 {
        self.next_draw()
    }
}

} // verus!
