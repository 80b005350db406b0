//! A lattice site: its state and its competing clocks.
use vstd::prelude::*;
use crate::clock::{Rate, Recorder, ExpSource, advance_forward, next_arrival, next_after, first_arrival_by, concat, new_draws};

verus! {

#[derive(Clone, Copy, Debug, PartialEq, Eq, Structural)]
pub enum State {
    Infected,
    Healthy,
}

/// Which clock of a site comes first: recovery, or infection in direction `d`.
#[derive(Clone, Copy, Debug, PartialEq, Eq, Structural)]
pub enum InfectProgress {
    Heal,
    Infect(usize),
}

/// The position of a clock in [`Node::clocks`]: recovery first, then the
/// directions in declaration order.
pub open spec fn progress_index(p: InfectProgress) -> int {
    match p {
        InfectProgress::Heal => 0,
        InfectProgress::Infect(d) => d + 1,
    }
}

/// `j` holds the smallest value of `s`, and no earlier position holds it.
pub open spec fn is_first_min(s: Seq<u64>, j: int) -> bool {
    &&& 0 <= j < s.len()
    &&& forall|k: int| 0 <= k < s.len() ==> s[j] <= #[trigger] s[k]
    &&& forall|k: int| 0 <= k < j ==> s[j] < #[trigger] s[k]
}

/// A sequence has at most one first position of its smallest value.
pub proof fn lemma_first_min_unique(s: Seq<u64>, i: int, j: int)
    requires
        is_first_min(s, i),
        is_first_min(s, j),
    ensures
        i == j,
{
    if i < j {
        assert(s[j] < s[i]);
    } else if j < i {
        assert(s[i] < s[j]);
    }
}

/// The position of the first clock of `s`.
pub open spec fn first_min_index(s: Seq<u64>) -> int {
    choose|j: int| is_first_min(s, j)
}

/// A nonempty sequence has a first position of its smallest value.
pub proof fn lemma_first_min_exists(s: Seq<u64>)
    requires
        s.len() > 0,
    ensures
        is_first_min(s, first_min_index(s)),
    decreases s.len(),
{
    if s.len() == 1 {
        assert(is_first_min(s, 0));
    } else {
        let p = s.drop_last();
        lemma_first_min_exists(p);
        let j = first_min_index(p);
        let n = s.len() - 1;
        if s[n] < p[j] {
            assert forall|k: int| 0 <= k < s.len() implies s[n] <= #[trigger] s[k] by {
                if k < n {
                    assert(p[j] <= p[k]);
                }
            }
            assert forall|k: int| 0 <= k < n implies s[n] < #[trigger] s[k] by {
                assert(p[j] <= p[k]);
            }
            assert(is_first_min(s, n));
        } else {
            assert forall|k: int| 0 <= k < s.len() implies s[j] <= #[trigger] s[k] by {
                if k < n {
                    assert(p[j] <= p[k]);
                }
            }
            assert forall|k: int| 0 <= k < j implies s[j] < #[trigger] s[k] by {
                assert(p[j] < p[k]);
            }
            assert(is_first_min(s, j));
        }
    }
}

/// The first clock of a site is at or below each of its clocks.
pub proof fn lemma_min_clock_below(n: Node)
    ensures
        is_first_min(n.clocks(), first_min_index(n.clocks())),
        forall|k: int| 0 <= k < n.clocks().len() ==> n.min_clock() <= #[trigger] n.clocks()[k],
{
    lemma_first_min_exists(n.clocks());
}

/// Each infection clock of `post` is the first arrival at or after `t` from
/// the same clock of `pre`, through its own draws `segs[k]` at its own rate.
pub open spec fn infections_advanced(pre: Node, post: Node, rates: Seq<Rate>, t: u64, segs: Seq<Seq<(Rate, u64)>>) -> bool {
    &&& segs.len() == pre.t_infect@.len()
    &&& post.t_infect@.len() == pre.t_infect@.len()
    &&& forall|k: int| 0 <= k < segs.len() ==> first_arrival_by(pre.t_infect@[k], #[trigger] segs[k], rates[k], t, post.t_infect@[k])
}

/// `post` is `pre` reinfected at `t` with the draws that took the record
/// from `log0` to `log1`: recovery clock first, then each infection clock,
/// each moved to its first arrival at or after `t` through its own draws.
pub open spec fn reinfected_by(pre: Node, post: Node, rates: Seq<Rate>, t: u64, log0: Seq<(Rate, u64)>, log1: Seq<(Rate, u64)>) -> bool {
    &&& post.state == State::Infected
    &&& exists|heal_draws: Seq<(Rate, u64)>, segs: Seq<Seq<(Rate, u64)>>|
        #![trigger infections_advanced(pre, post, rates, t, segs), first_arrival_by(pre.t_heal, heal_draws, Rate { num: 1, den: 1 }, t, post.t_heal)]
        first_arrival_by(pre.t_heal, heal_draws, Rate { num: 1, den: 1 }, t, post.t_heal)
            && infections_advanced(pre, post, rates, t, segs)
            && log1 == log0 + heal_draws + concat(segs)
}

/// `n` is a site created at `t` with the draws that took the record from
/// `log0` to `log1`: one draw per clock, recovery first, each at its rate.
pub open spec fn created_by(n: Node, rates: Seq<Rate>, t: u64, log0: Seq<(Rate, u64)>, log1: Seq<(Rate, u64)>) -> bool {
    &&& n.state == State::Infected
    &&& n.t_infect@.len() == rates.len()
    &&& log1.len() == log0.len() + n.clocks().len()
    &&& log1.subrange(0, log0.len() as int) == log0
    &&& forall|j: int| 0 <= j < n.clocks().len() ==> {
        let e = #[trigger] log1[log0.len() + j];
        e.0 == clock_rate(rates, j) && n.clocks()[j] == next_after(t, e.1)
    }
}

/// Equal draws make equal sites: two sites created at the same time from the
/// same record of draws have the same state and the same clocks.
pub proof fn lemma_created_same(a: Node, b: Node, rates: Seq<Rate>, t: u64, log0: Seq<(Rate, u64)>, log1: Seq<(Rate, u64)>)
    requires
        created_by(a, rates, t, log0, log1),
        created_by(b, rates, t, log0, log1),
    ensures
        a.state == b.state,
        a.clocks() == b.clocks(),
{
    assert forall|j: int| 0 <= j < a.clocks().len() implies a.clocks()[j] == b.clocks()[j] by {
        let e = log1[log0.len() + j];
        assert(a.clocks()[j] == next_after(t, e.1));
        assert(b.clocks()[j] == next_after(t, e.1));
    }
    assert(a.clocks() =~= b.clocks());
}

/// The rate of clock `j` of a site: recovery at rate 1, then the directions.
pub open spec fn clock_rate(rates: Seq<Rate>, j: int) -> Rate {
    if j == 0 {
        Rate { num: 1, den: 1 }
    } else {
        rates[j - 1]
    }
}

/// Every rate is strictly positive.
pub open spec fn all_rates_valid(rates: Seq<Rate>) -> bool {
    forall|i: int| 0 <= i < rates.len() ==> #[trigger] rates[i].valid()
}

/// A site: its state, its recovery clock and one infection clock per direction.
/// Clock values are absolute arrival times.
#[derive(Clone, Debug)]
pub struct Node {
    pub t_heal: u64,
    pub t_infect: Vec<u64>,
    pub state: State,
}

impl Node {
    /// All clocks: recovery first, then the directions.
    pub open spec fn clocks(&self) -> Seq<u64> {
        seq![self.t_heal] + self.t_infect@
    }

    /// The value of the first clock.
    pub open spec fn min_clock(&self) -> u64 {
        self.clocks()[first_min_index(self.clocks())]
    }

    /// Every clock is at or past `t`.
    pub open spec fn clocks_reach(&self, t: u64) -> bool {
        forall|i: int| 0 <= i < self.clocks().len() ==> #[trigger] self.clocks()[i] >= t
    }

    /// Each clock of `self` is at or past the matching clock of `other`.
    pub open spec fn clocks_after(&self, other: &Node) -> bool {
        &&& self.t_infect@.len() == other.t_infect@.len()
        &&& self.t_heal >= other.t_heal
        &&& forall|i: int| 0 <= i < self.t_infect@.len() ==> #[trigger] self.t_infect@[i] >= other.t_infect@[i]
    }

    /// A site infected at time `t`, each clock set to its first arrival after `t`.
    pub fn new<S: ExpSource>(rates: &Vec<Rate>, t: u64, src: &mut Recorder<S>) -> (r: Node)
        requires
            all_rates_valid(rates@),
        ensures
            r.state == State::Infected,
            r.t_infect@.len() == rates@.len(),
            r.clocks_reach(t),
            t < u64::MAX ==> forall|i: int| 0 <= i < r.clocks().len() ==> #[trigger] r.clocks()[i] > t,
            created_by(r, rates@, t, old(src).log(), final(src).log()),
            final(src).log().len() == old(src).log().len() + r.clocks().len(),
            final(src).log().subrange(0, old(src).log().len() as int) == old(src).log(),
            forall|j: int| 0 <= j < r.clocks().len() ==> {
                let e = #[trigger] final(src).log()[old(src).log().len() + j];
                e.0 == clock_rate(rates@, j) && r.clocks()[j] == next_after(t, e.1)
            },
    {
        let ghost base = src.log();
        let ghost b = base.len() as int;
        let t_heal = next_arrival(t, Rate::heal(), src);
        let ghost mut drawn: Seq<(Rate, u64)> = seq![src.log().last()];
        assert(src.log() =~= base + drawn);
        let mut t_infect: Vec<u64> = Vec::new();
        let mut i: usize = 0;
        while i < rates.len()
            invariant
                all_rates_valid(rates@),
                b == base.len(),
                src.log() == base + drawn,
                drawn.len() == 1 + i,
                drawn[0].0 == (Rate { num: 1, den: 1 }),
                t_heal == next_after(t, drawn[0].1),
                forall|k: int| 0 <= k < i ==> {
                    let e = #[trigger] drawn[1 + k];
                    e.0 == rates@[k] && t_infect@[k] == next_after(t, e.1)
                },
                i <= rates@.len(),
                t_infect@.len() == i,
                forall|k: int| 0 <= k < i ==> #[trigger] t_infect@[k] >= t,
                t < u64::MAX ==> forall|k: int| 0 <= k < i ==> #[trigger] t_infect@[k] > t,
            decreases rates@.len() - i,
        {
            let ghost before = drawn;
            let c = next_arrival(t, rates[i], src);
            t_infect.push(c);
            proof {
                drawn = drawn.push(src.log().last());
                assert(src.log() =~= base + drawn);
                assert forall|k: int| 0 <= k < i + 1 implies {
                    let e = #[trigger] drawn[1 + k];
                    e.0 == rates@[k] && t_infect@[k] == next_after(t, e.1)
                } by {
                    if k < i {
                        assert(drawn[1 + k] == before[1 + k]);
                    }
                }
            }
            i = i + 1;
        }
        let r = Node { t_heal, t_infect, state: State::Infected };
        assert(src.log().subrange(0, b) =~= base);
        assert forall|j: int| 0 <= j < r.clocks().len() implies {
            let e = #[trigger] src.log()[b + j];
            e.0 == clock_rate(rates@, j) && r.clocks()[j] == next_after(t, e.1)
        } by {
            assert(src.log()[b + j] == drawn[j]);
            if j > 0 {
                assert(r.clocks()[j] == r.t_infect@[j - 1]);
                assert(drawn[j] == drawn[1 + (j - 1)]);
            }
        }
        assert forall|k: int| 0 <= k < r.clocks().len() implies #[trigger] r.clocks()[k] >= t by {
            if k > 0 {
                assert(r.clocks()[k] == r.t_infect@[k - 1]);
            }
        }
        assert forall|k: int| 0 <= k < r.clocks().len() && t < u64::MAX implies #[trigger] r.clocks()[k] > t by {
            if k > 0 {
                assert(r.clocks()[k] == r.t_infect@[k - 1]);
            }
        }
        r
    }

    /// Which clock comes first; ties go to recovery, then to the earlier direction.
    pub fn get_min_state(&self) -> (r: InfectProgress)
        ensures
            is_first_min(self.clocks(), progress_index(r)),
            progress_index(r) == first_min_index(self.clocks()),
            r matches InfectProgress::Infect(d) ==> d < self.t_infect@.len(),
    {
        let mut best: u64 = self.t_heal;
        let mut which = InfectProgress::Heal;
        let mut i: usize = 0;
        while i < self.t_infect.len()
            invariant
                i <= self.t_infect@.len(),
                0 <= progress_index(which) <= i,
                which matches InfectProgress::Infect(d) ==> d < i,
                best == self.clocks()[progress_index(which)],
                forall|k: int| 0 <= k <= i ==> best <= #[trigger] self.clocks()[k],
                forall|k: int| 0 <= k < progress_index(which) ==> best < #[trigger] self.clocks()[k],
            decreases self.t_infect@.len() - i,
        {
            if self.t_infect[i] < best {
                best = self.t_infect[i];
                which = InfectProgress::Infect(i);
            }
            i = i + 1;
        }
        proof {
            assert(is_first_min(self.clocks(), progress_index(which)));
            let j = first_min_index(self.clocks());
            lemma_first_min_unique(self.clocks(), j, progress_index(which));
        }
        which
    }

    /// The value of the first clock.
    pub fn get_min(&self) -> (r: u64)
        ensures
            r == self.min_clock(),
            forall|j: int| is_first_min(self.clocks(), j) ==> r == self.clocks()[j],
            forall|k: int| 0 <= k < self.clocks().len() ==> r <= #[trigger] self.clocks()[k],
            exists|k: int| 0 <= k < self.clocks().len() && r == #[trigger] self.clocks()[k],
    {
        let p = self.get_min_state();
        let r = match p {
            InfectProgress::Heal => self.t_heal,
            InfectProgress::Infect(d) => self.t_infect[d],
        };
        assert(r == self.clocks()[progress_index(p)]);
        assert forall|j: int| is_first_min(self.clocks(), j) implies r == self.clocks()[j] by {
            lemma_first_min_unique(self.clocks(), j, progress_index(p));
        }
        r
    }

    /// Moves every infection clock to its first arrival at or after `t`.
    fn advance_infections<S: ExpSource>(&mut self, rates: &Vec<Rate>, t: u64, src: &mut Recorder<S>)
        requires
            old(self).t_infect@.len() == rates@.len(),
            all_rates_valid(rates@),
        ensures
            final(self).t_heal == old(self).t_heal,
            final(self).state == old(self).state,
            final(self).clocks_after(old(self)),
            forall|i: int| 0 <= i < final(self).t_infect@.len() ==> #[trigger] final(self).t_infect@[i] >= t,
            forall|i: int|
                0 <= i < final(self).t_infect@.len() && old(self).t_infect@[i] >= t
                    ==> #[trigger] final(self).t_infect@[i] == old(self).t_infect@[i],
            (forall|i: int| 0 <= i < old(self).t_infect@.len() ==> #[trigger] old(self).t_infect@[i] >= t)
                ==> final(src).log() == old(src).log(),
            exists|segs: Seq<Seq<(Rate, u64)>>| #[trigger] infections_advanced(*old(self), *final(self), rates@, t, segs)
                && final(src).log() == old(src).log() + concat(segs),
    {
        let ghost mut segs: Seq<Seq<(Rate, u64)>> = Seq::empty();
        assert(src.log() =~= old(src).log() + concat(segs));
        let mut i: usize = 0;
        while i < self.t_infect.len()
            invariant
                all_rates_valid(rates@),
                i <= self.t_infect@.len(),
                self.t_infect@.len() == old(self).t_infect@.len(),
                self.t_infect@.len() == rates@.len(),
                self.t_heal == old(self).t_heal,
                self.state == old(self).state,
                forall|k: int| 0 <= k < self.t_infect@.len() ==> #[trigger] self.t_infect@[k] >= old(self).t_infect@[k],
                forall|k: int| 0 <= k < i ==> #[trigger] self.t_infect@[k] >= t,
                forall|k: int| i <= k < self.t_infect@.len() ==> #[trigger] self.t_infect@[k] == old(self).t_infect@[k],
                forall|k: int|
                    0 <= k < self.t_infect@.len() && old(self).t_infect@[k] >= t
                        ==> #[trigger] self.t_infect@[k] == old(self).t_infect@[k],
                (forall|k: int| 0 <= k < old(self).t_infect@.len() ==> #[trigger] old(self).t_infect@[k] >= t)
                    ==> src.log() == old(src).log(),
                segs.len() == i,
                src.log() == old(src).log() + concat(segs),
                forall|k: int| 0 <= k < i ==> first_arrival_by(old(self).t_infect@[k], #[trigger] segs[k], rates@[k], t, self.t_infect@[k]),
            decreases self.t_infect@.len() - i,
        {
            let ghost before = src.log();
            let ghost prev = segs;
            let c = advance_forward(self.t_infect[i], rates[i], t, src);
            self.t_infect.set(i, c);
            proof {
                let ds = new_draws(src.log(), before.len());
                segs = segs.push(ds);
                assert(segs.drop_last() =~= prev);
                assert(src.log() =~= old(src).log() + concat(segs));
                assert forall|k: int| 0 <= k < i + 1 implies first_arrival_by(old(self).t_infect@[k], #[trigger] segs[k], rates@[k], t, self.t_infect@[k]) by {
                    if k < i {
                        assert(segs[k] == prev[k]);
                    }
                }
            }
            i = i + 1;
        }
        assert(infections_advanced(*old(self), *self, rates@, t, segs));
    }

    /// Recovery: the infection clocks move past the recovery time, then the
    /// recovery clock moves on by one waiting time.
    fn heal<S: ExpSource>(&mut self, rates: &Vec<Rate>, src: &mut Recorder<S>)
        requires
            old(self).t_infect@.len() == rates@.len(),
            all_rates_valid(rates@),
        ensures
            final(self).state == State::Healthy,
            final(self).clocks_after(old(self)),
            final(self).t_heal > old(self).t_heal || final(self).t_heal == u64::MAX,
            forall|i: int| 0 <= i < final(self).t_infect@.len() ==> #[trigger] final(self).t_infect@[i] >= old(self).t_heal,
            forall|i: int|
                0 <= i < final(self).t_infect@.len() && old(self).t_infect@[i] >= old(self).t_heal
                    ==> #[trigger] final(self).t_infect@[i] == old(self).t_infect@[i],
            final(self).t_heal == next_after(old(self).t_heal, final(src).log().last().1),
            final(src).log().last().0 == (Rate { num: 1, den: 1 }),
            (forall|i: int| 0 <= i < old(self).t_infect@.len() ==> #[trigger] old(self).t_infect@[i] >= old(self).t_heal)
                ==> final(src).log() == old(src).log().push((Rate { num: 1, den: 1 }, final(src).log().last().1)),
    {
        let t = self.t_heal;
        self.advance_infections(rates, t, src);
        self.t_heal = next_arrival(self.t_heal, Rate::heal(), src);
        self.state = State::Healthy;
    }

    /// Infection at time `t`: the state becomes `Infected` and every clock
    /// moves to its first arrival at or after `t`.
    pub fn infect<S: ExpSource>(&mut self, rates: &Vec<Rate>, t: u64, src: &mut Recorder<S>)
        requires
            old(self).t_infect@.len() == rates@.len(),
            all_rates_valid(rates@),
        ensures
            final(self).state == State::Infected,
            final(self).clocks_after(old(self)),
            final(self).clocks_reach(t),
            forall|k: int|
                0 <= k < old(self).clocks().len() && old(self).clocks()[k] >= t
                    ==> #[trigger] final(self).clocks()[k] == old(self).clocks()[k],
            old(self).clocks_reach(t) ==> final(src).log() == old(src).log(),
            reinfected_by(*old(self), *final(self), rates@, t, old(src).log(), final(src).log()),
    {
        self.state = State::Infected;
        let ghost log0 = src.log();
        self.t_heal = advance_forward(self.t_heal, Rate::heal(), t, src);
        let ghost heal_draws = new_draws(src.log(), log0.len());
        let ghost log1 = src.log();
        let ghost mid = *self;
        let ghost pre = *old(self);
        proof {
            if pre.clocks_reach(t) {
                assert forall|i: int| 0 <= i < pre.t_infect@.len() implies #[trigger] pre.t_infect@[i] >= t by {
                    assert(pre.clocks()[i + 1] == pre.t_infect@[i]);
                }
                assert(pre.clocks()[0] >= t);
            }
        }
        self.advance_infections(rates, t, src);
        proof {
            let segs = choose|segs: Seq<Seq<(Rate, u64)>>| #[trigger] infections_advanced(mid, *self, rates@, t, segs)
                && src.log() == log1 + concat(segs);
            assert(infections_advanced(pre, *self, rates@, t, segs));
            assert(first_arrival_by(pre.t_heal, heal_draws, Rate { num: 1, den: 1 }, t, self.t_heal));
            assert(src.log() =~= log0 + heal_draws + concat(segs));
        }
        assert forall|k: int|
            0 <= k < pre.clocks().len() && pre.clocks()[k] >= t implies #[trigger] self.clocks()[k] == pre.clocks()[k] by {
            if k > 0 {
                assert(self.clocks()[k] == self.t_infect@[k - 1]);
                assert(pre.clocks()[k] == pre.t_infect@[k - 1]);
            }
        }
        assert forall|k: int| 0 <= k < self.clocks().len() implies #[trigger] self.clocks()[k] >= t by {
            if k > 0 {
                assert(self.clocks()[k] == self.t_infect@[k - 1]);
            }
        }
    }

    /// Fires the first clock. Recovery makes the site `Healthy` (see `heal`);
    /// an infection clock simply moves on by one waiting time.
    pub fn step<S: ExpSource>(&mut self, rates: &Vec<Rate>, src: &mut Recorder<S>)
        requires
            old(self).t_infect@.len() == rates@.len(),
            all_rates_valid(rates@),
        ensures
            final(self).clocks_after(old(self)),
            forall|j: int| is_first_min(old(self).clocks(), j) ==> {
                let c = old(self).clocks()[j];
                &&& final(self).clocks()[j] > c || final(self).clocks()[j] == u64::MAX
                &&& j == 0 ==> final(self).state == State::Healthy && final(self).clocks_reach(c)
                &&& j > 0 ==> final(self).state == old(self).state
                &&& forall|k: int| 0 <= k < final(self).clocks().len() && k != j
                    ==> #[trigger] final(self).clocks()[k] == old(self).clocks()[k]
            },
            forall|j: int| is_first_min(old(self).clocks(), j) ==> {
                let x = final(src).log().last().1;
                &&& final(src).log() == old(src).log().push((clock_rate(rates@, j), x))
                &&& final(self).clocks()[j] == next_after(old(self).clocks()[j], x)
            },
    {
        let p = self.get_min_state();
        let ghost j0 = progress_index(p);
        let ghost pre = *self;
        match p {
            InfectProgress::Heal => {
                assert forall|i: int| 0 <= i < pre.t_infect@.len() implies #[trigger] pre.t_infect@[i] >= pre.t_heal by {
                    assert(pre.clocks()[i + 1] == pre.t_infect@[i]);
                    assert(pre.clocks()[0] <= pre.clocks()[i + 1]);
                }
                self.heal(rates, src);
                assert forall|k: int| 0 <= k < self.clocks().len() implies #[trigger] self.clocks()[k] >= pre.t_heal by {
                    if k > 0 {
                        assert(self.clocks()[k] == self.t_infect@[k - 1]);
                    }
                }
                assert forall|k: int| 0 <= k < self.clocks().len() && k != j0 implies #[trigger] self.clocks()[k] == pre.clocks()[k] by {
                    assert(self.clocks()[k] == self.t_infect@[k - 1]);
                    assert(pre.clocks()[k] == pre.t_infect@[k - 1]);
                }
            },
            InfectProgress::Infect(d) => {
                let c = next_arrival(self.t_infect[d], rates[d], src);
                self.t_infect.set(d, c);
                assert(clock_rate(rates@, j0) == rates@[d as int]);
                assert(self.clocks()[j0] == c);
                assert(pre.clocks()[j0] == pre.t_infect@[d as int]);
                assert forall|k: int| 0 <= k < self.clocks().len() && k != j0 implies #[trigger] self.clocks()[k] == pre.clocks()[k] by {
                    if k > 0 {
                        assert(self.clocks()[k] == self.t_infect@[k - 1]);
                    }
                }
            },
        }
        assert forall|j: int| is_first_min(pre.clocks(), j) implies j == j0 by {
            lemma_first_min_unique(pre.clocks(), j, j0);
        }
    }
}

} // verus!
