//! The simulation driver over a plain site store, with a linear-scan scheduler.
use vstd::prelude::*;
use crate::clock::{Rate, Recorder, SimError, ExpSource, next_after};
use crate::node::{Node, State, InfectProgress, progress_index, clock_rate, reinfected_by, created_by, all_rates_valid, first_min_index, is_first_min, lemma_min_clock_below};
use crate::topology::{SimAlphaType, sim_topology, target_of, Topology, Coord, dir_count, params_valid, rates_match};

verus! {

/// Number of infected sites in `nodes`.
pub open spec fn count_infected(nodes: Seq<Node>) -> nat
    decreases nodes.len(),
{
    if nodes.len() == 0 {
        0
    } else {
        count_infected(nodes.drop_last()) + if nodes.last().state == State::Infected {
            1nat
        } else {
            0nat
        }
    }
}

/// Site `i` is the next to act: it is infected, its first clock is the
/// smallest among infected sites, and no earlier infected site ties with it.
pub open spec fn is_next_event(nodes: Seq<Node>, i: int) -> bool {
    &&& 0 <= i < nodes.len()
    &&& nodes[i].state == State::Infected
    &&& forall|k: int|
        0 <= k < nodes.len() && nodes[k].state == State::Infected ==> nodes[i].min_clock()
            <= #[trigger] nodes[k].min_clock()
    &&& forall|k: int|
        0 <= k < i && nodes[k].state == State::Infected ==> nodes[i].min_clock()
            < #[trigger] nodes[k].min_clock()
}

/// Every clock of every infected site is at or past `t`.
pub open spec fn infected_reach(nodes: Seq<Node>, t: u64) -> bool {
    forall|i: int| 0 <= i < nodes.len() && (#[trigger] nodes[i]).state == State::Infected ==> nodes[i].clocks_reach(t)
}

/// Some site of `nodes` is infected.
pub open spec fn has_infected(nodes: Seq<Node>) -> bool {
    exists|k: int| 0 <= k < nodes.len() && #[trigger] nodes[k].state == State::Infected
}

/// At most one site is the next to act.
pub proof fn lemma_next_event_unique(nodes: Seq<Node>, i: int, j: int)
    requires
        is_next_event(nodes, i),
        is_next_event(nodes, j),
    ensures
        i == j,
{
    if i < j {
        assert(nodes[j].min_clock() < nodes[i].min_clock());
    } else if j < i {
        assert(nodes[i].min_clock() < nodes[j].min_clock());
    }
}

/// What one event did: `post` is `pre` after site `i` acted at its first
/// clock. Time jumps to that clock; the clock moves on (recovery also heals
/// the site); an infection reaches its target, which then exists, is
/// infected and has every clock at or past the new time; every other site of
/// `pre` is unchanged.
pub open spec fn event_done(pre: &Simulation, post: &Simulation, i: int) -> bool {
        let n = pre.nodes()[i];
        let j = first_min_index(n.clocks());
        let tgt = if j > 0 { target_of(pre.topology(), pre.coords()[i], j - 1) } else { None };
        &&& post.time() == n.min_clock()
        &&& post.events() == pre.events() + 1
        &&& (post.nodes()[i].clocks()[j] > n.min_clock() || post.nodes()[i].clocks()[j] == u64::MAX)
        &&& (j == 0 <==> post.nodes()[i].state == State::Healthy)
        &&& j == 0 ==> post.nodes()[i].clocks_reach(n.min_clock())
        &&& (forall|k: int| 0 <= k < n.clocks().len() && k != j
            ==> #[trigger] post.nodes()[i].clocks()[k] == n.clocks()[k])
        &&& tgt is None ==> post.nodes().len() == pre.nodes().len()
        &&& post.nodes().len() == pre.nodes().len() + 1 ==> tgt == Some(post.coords().last())
            && (forall|m: int| 0 <= m < pre.coords().len() ==> pre.coords()[m] != post.coords().last())
        &&& (tgt matches Some(c) && (exists|m: int| 0 <= m < pre.coords().len() && pre.coords()[m] == c))
            ==> post.nodes().len() == pre.nodes().len()
        &&& tgt matches Some(c) ==> (exists|k: int|
            0 <= k < post.nodes().len() && post.coords()[k] == c
                && post.nodes()[k].state == State::Infected
                && post.nodes()[k].clocks_reach(post.time()))
        &&& forall|m: int|
            0 <= m < pre.nodes().len() && m != i && tgt != Some(pre.coords()[m])
                ==> #[trigger] post.nodes()[m] == pre.nodes()[m]
}

/// The target `c` of an event from `pre` to `post` was set by the draws that
/// took the record from `log0` to `log1`: an existing site is reinfected at
/// the new time, or a new site is created at it.
pub open spec fn target_drawn(pre: &Simulation, post: &Simulation, c: Coord, log0: Seq<(Rate, u64)>, log1: Seq<(Rate, u64)>) -> bool {
    &&& (exists|m: int| 0 <= m < pre.coords().len() && pre.coords()[m] == c) ==> exists|k: int|
        0 <= k < pre.nodes().len() && pre.coords()[k] == c
            && #[trigger] reinfected_by(pre.nodes()[k], post.nodes()[k], pre.rates(), post.time(), log0, log1)
    &&& (forall|m: int| 0 <= m < pre.coords().len() ==> pre.coords()[m] != c)
        ==> created_by(post.nodes().last(), pre.rates(), post.time(), log0, log1)
}

/// Creates a run on one of the split-parameter topologies.
pub fn create_sim<S: ExpSource>(sim_type: SimAlphaType, lambda: i64, alpha: i64, src: &mut Recorder<S>) -> (r: Result<Simulation, SimError>)
    ensures
        r is Err <==> !params_valid(sim_topology(sim_type), lambda as int, alpha as int),
        r matches Err(e) ==> e == SimError::InvalidParameter,
        r matches Ok(s) ==> {
            &&& s.wf()
            &&& s.topology() == sim_topology(sim_type)
            &&& rates_match(sim_topology(sim_type), lambda as int, alpha as int, s.rates())
            &&& s.time() == 0
            &&& s.events() == 0
            &&& s.coords() == seq![Coord { x: 0, y: 0 }]
            &&& s.nodes().len() == 1
            &&& s.nodes()[0].state == State::Infected
            &&& s.nodes()[0].clocks_reach(0)
        },
{
    Simulation::new(sim_type.topology(), lambda, alpha, src)
}

/// How one run ended: whether it died out before the horizon, and how many
/// sites were infected at its end.
#[derive(Clone, Copy, Debug, PartialEq, Eq, Structural)]
pub struct RunOutcome {
    pub extinct: bool,
    pub left: usize,
}

/// Outcomes of independent runs on one parameter point.
#[derive(Clone, Copy, Debug, PartialEq, Eq, Structural)]
pub struct ReplicaTally {
    /// Runs that died out before the horizon.
    pub extinct: u32,
    /// The sum over runs of the infected sites left at the end.
    pub end_infected_sum: u128,
}

/// Number of runs in `outs` that died out.
pub open spec fn extinct_count(outs: Seq<RunOutcome>) -> nat
    decreases outs.len(),
{
    if outs.len() == 0 {
        0
    } else {
        extinct_count(outs.drop_last()) + if outs.last().extinct { 1nat } else { 0nat }
    }
}

/// Sum over `outs` of the infected sites left at the end.
pub open spec fn left_sum(outs: Seq<RunOutcome>) -> nat
    decreases outs.len(),
{
    if outs.len() == 0 {
        0
    } else {
        left_sum(outs.drop_last()) + outs.last().left as nat
    }
}

/// `o` is how `s`, a run that `Simulation::run(horizon)` has just returned
/// from, ended: it died out before the horizon, or it reached the horizon
/// (or the cap on events of one call).
pub open spec fn ended_as(s: Simulation, horizon: u64, o: RunOutcome) -> bool {
    &&& s.wf()
    &&& o.extinct <==> s.time() < horizon && !has_infected(s.nodes())
    &&& !o.extinct ==> s.time() >= horizon || s.events() >= u64::MAX
    &&& o.left == count_infected(s.nodes())
}

/// `s` is a run as `Simulation::new` starts it: time 0, no event yet, one
/// infected site at the origin.
pub open spec fn fresh_start(s: Simulation, topology: Topology, lambda: i64, alpha: i64) -> bool {
    &&& s.wf()
    &&& s.topology() == topology
    &&& rates_match(topology, lambda as int, alpha as int, s.rates())
    &&& s.time() == 0
    &&& s.events() == 0
    &&& s.coords() == seq![Coord { x: 0, y: 0 }]
    &&& s.nodes().len() == 1
    &&& s.nodes()[0].state == State::Infected
    &&& s.nodes()[0].clocks_reach(0)
}

/// `ss` is a sequence of states, each the one before it after its next
/// event (`event_done`), each event taken while the time was below `horizon`.
pub open spec fn event_chain(ss: Seq<Simulation>, horizon: u64) -> bool {
    forall|j: int| 0 <= j < ss.len() - 1 ==> (#[trigger] ss[j]).time() < horizon && one_event(ss[j], ss[j + 1])
}

/// `b` is reached from `a` by `k` events in a row, as `event_chain` says.
pub open spec fn run_path(a: Simulation, b: Simulation, horizon: u64, k: nat) -> bool {
    exists|ss: Seq<Simulation>|
        #[trigger] event_chain(ss, horizon) && ss.len() == k + 1 && ss[0] == a && ss[k as int] == b
}

/// `b` is `a` after its next event.
pub open spec fn one_event(a: Simulation, b: Simulation) -> bool {
    exists|i: int| #[trigger] is_next_event(a.nodes(), i) && event_done(&a, &b, i)
}

/// One more event extends a path by one.
pub proof fn lemma_run_path_extend(a: Simulation, m: Simulation, b: Simulation, horizon: u64, k: nat, i: int)
    requires
        run_path(a, m, horizon, k),
        m.time() < horizon,
        is_next_event(m.nodes(), i),
        event_done(&m, &b, i),
    ensures
        run_path(a, b, horizon, k + 1),
{
    let ss = choose|ss: Seq<Simulation>| #[trigger] event_chain(ss, horizon) && ss.len() == k + 1 && ss[0] == a && ss[k as int] == m;
    let ss2 = ss.push(b);
    assert(one_event(m, b));
    assert forall|j: int| 0 <= j < ss2.len() - 1 implies (#[trigger] ss2[j]).time() < horizon && one_event(ss2[j], ss2[j + 1]) by {
        if j < k {
            assert(ss2[j] == ss[j] && ss2[j + 1] == ss[j + 1]);
        } else {
            assert(ss2[j] == m && ss2[j + 1] == b);
        }
    }
    assert(event_chain(ss2, horizon));
    assert(ss2[(k + 1) as int] == b && ss2[0] == a);
}

/// A path of no event.
pub proof fn lemma_run_path_empty(a: Simulation, horizon: u64)
    ensures
        run_path(a, a, horizon, 0),
{
    let ss = seq![a];
    assert(event_chain(ss, horizon));
}

/// A run started by `new(topology, lambda, alpha)` and then driven by
/// `run(horizon)` through a sequence of events ended as `o`.
pub open spec fn possible_outcome(topology: Topology, lambda: i64, alpha: i64, horizon: u64, o: RunOutcome) -> bool {
    exists|s0: Simulation, s1: Simulation, k: nat|
        #![trigger run_path(s0, s1, horizon, k)]
        fresh_start(s0, topology, lambda, alpha) && run_path(s0, s1, horizon, k) && ended_as(s1, horizon, o)
}

impl ReplicaTally {
    /// Adds one run to the tally.
    pub fn record(self, o: RunOutcome) -> (r: ReplicaTally)
        requires
            self.extinct < u32::MAX,
            self.end_infected_sum + o.left <= u128::MAX,
        ensures
            r.extinct == self.extinct + if o.extinct { 1int } else { 0int },
            r.end_infected_sum == self.end_infected_sum + o.left,
    {
        ReplicaTally {
            extinct: if o.extinct { self.extinct + 1 } else { self.extinct },
            end_infected_sum: self.end_infected_sum + o.left as u128,
        }
    }
}

/// One run from a fresh start up to `horizon`. Fails with
/// `InvalidParameter` exactly when some derived rate is not strictly positive.
pub fn run_once<S: ExpSource>(topology: Topology, lambda: i64, alpha: i64, horizon: u64, src: &mut Recorder<S>) -> (r: Result<RunOutcome, SimError>)
    ensures
        r is Err <==> !params_valid(topology, lambda as int, alpha as int),
        r matches Err(e) ==> e == SimError::InvalidParameter,
        r matches Ok(o) ==> possible_outcome(topology, lambda, alpha, horizon, o),
        r matches Ok(o) ==> o.extinct ==> o.left == 0,
        r matches Ok(o) ==> horizon == 0 ==> !o.extinct && o.left == 1,
{
    let mut sim = match Simulation::new(topology, lambda, alpha, src) {
        Ok(s) => s,
        Err(e) => {
            return Err(e);
        },
    };
    let ghost sim0 = sim;
    let extinct = sim.run(horizon, src);
    let left = sim.get_number_of_infected_nodes();
    let o = RunOutcome { extinct, left };
    proof {
        if horizon == 0 {
            assert(sim.nodes().drop_last().len() == 0);
            reveal_with_fuel(count_infected, 2);
        }
        assert(ended_as(sim, horizon, o));
        assert(fresh_start(sim0, topology, lambda, alpha));
        assert(run_path(sim0, sim, horizon, (sim.events() - sim0.events()) as nat));
    }
    Ok(o)
}

/// Performs `replicas` independent runs, as `run_once` does, all drawing from
/// `src`, and tallies them: `extinct` counts the runs that died out and
/// `end_infected_sum` adds up the infected sites each left. Fails with
/// `InvalidParameter` exactly when some derived rate is not strictly positive,
/// before any run.
pub fn run_replicas<S: ExpSource>(
    topology: Topology,
    lambda: i64,
    alpha: i64,
    horizon: u64,
    replicas: u32,
    src: &mut Recorder<S>,
) -> (r: Result<ReplicaTally, SimError>)
    ensures
        r is Err <==> !params_valid(topology, lambda as int, alpha as int),
        r matches Err(e) ==> e == SimError::InvalidParameter,
        r matches Ok(t) ==> exists|outs: Seq<RunOutcome>| {
            &&& outs.len() == replicas
            &&& forall|k: int| 0 <= k < outs.len() ==> possible_outcome(topology, lambda, alpha, horizon, #[trigger] outs[k])
            &&& forall|k: int| 0 <= k < outs.len() ==> (#[trigger] outs[k]).extinct ==> outs[k].left == 0
            &&& horizon == 0 ==> forall|k: int| 0 <= k < outs.len() ==> !(#[trigger] outs[k]).extinct && outs[k].left == 1
            &&& t.extinct == extinct_count(outs)
            &&& t.end_infected_sum == left_sum(outs)
        },
{
    match topology.rates(lambda, alpha) {
        Ok(_) => {},
        Err(e) => {
            return Err(e);
        },
    }
    let mut tally = ReplicaTally { extinct: 0, end_infected_sum: 0 };
    let ghost mut outs: Seq<RunOutcome> = Seq::empty();
    let mut i: u32 = 0;
    while i < replicas
        invariant
            params_valid(topology, lambda as int, alpha as int),
            i <= replicas,
            outs.len() == i,
            forall|k: int| 0 <= k < outs.len() ==> possible_outcome(topology, lambda, alpha, horizon, #[trigger] outs[k]),
            forall|k: int| 0 <= k < outs.len() ==> (#[trigger] outs[k]).extinct ==> outs[k].left == 0,
            horizon == 0 ==> forall|k: int| 0 <= k < outs.len() ==> !(#[trigger] outs[k]).extinct && outs[k].left == 1,
            tally.extinct == extinct_count(outs),
            tally.end_infected_sum == left_sum(outs),
            extinct_count(outs) <= i,
            left_sum(outs) <= i as int * usize::MAX as int,
        decreases replicas - i,
    {
        let o = match run_once(topology, lambda, alpha, horizon, src) {
            Ok(o) => o,
            Err(e) => {
                return Err(e);
            },
        };
        assert((i + 1) as int * usize::MAX as int == i as int * usize::MAX as int + usize::MAX as int) by (nonlinear_arith);
        assert((i + 1) as int * usize::MAX as int <= 0x1_0000_0000 * 0x1_0000_0000_0000_0000) by (nonlinear_arith)
            requires
                i < 0x1_0000_0000,
                usize::MAX <= 0xFFFF_FFFF_FFFF_FFFF;
        tally = tally.record(o);
        proof {
            let prev = outs;
            outs = outs.push(o);
            assert(outs.drop_last() =~= prev);
            assert forall|k: int| 0 <= k < outs.len() implies possible_outcome(topology, lambda, alpha, horizon, #[trigger] outs[k]) by {
                if k < prev.len() {
                    assert(outs[k] == prev[k]);
                }
            }
        }
        i = i + 1;
    }
    Ok(tally)
}

/// No site is counted exactly when no site is infected.
pub proof fn lemma_count_zero(nodes: Seq<Node>)
    ensures
        (count_infected(nodes) == 0) <==> !has_infected(nodes),
    decreases nodes.len(),
{
    if nodes.len() > 0 {
        lemma_count_zero(nodes.drop_last());
        if has_infected(nodes.drop_last()) {
            let k = choose|k: int| 0 <= k < nodes.drop_last().len() && #[trigger] nodes.drop_last()[k].state == State::Infected;
            assert(nodes[k].state == State::Infected);
        }
        if has_infected(nodes) && nodes.last().state != State::Infected {
            let k = choose|k: int| 0 <= k < nodes.len() && #[trigger] nodes[k].state == State::Infected;
            assert(nodes.drop_last()[k].state == State::Infected);
        }
    }
}

/// One run of the contact process, its sites kept in order of creation.
pub struct Simulation {
    topology: Topology,
    rates: Vec<Rate>,
    coords: Vec<Coord>,
    nodes: Vec<Node>,
    t: u64,
    events: Ghost<nat>,
}

impl Simulation {
    pub closed spec fn topology(&self) -> Topology {
        self.topology
    }

    pub closed spec fn rates(&self) -> Seq<Rate> {
        self.rates@
    }

    /// The coordinates of the sites, in order of creation.
    pub closed spec fn coords(&self) -> Seq<Coord> {
        self.coords@
    }

    /// The sites, in order of creation.
    pub closed spec fn nodes(&self) -> Seq<Node> {
        self.nodes@
    }

    /// The time of the last event.
    pub closed spec fn time(&self) -> u64 {
        self.t
    }

    /// The number of events performed since the start.
    pub closed spec fn events(&self) -> nat {
        self.events@
    }

    pub closed spec fn wf(&self) -> bool {
        &&& self.rates@.len() == dir_count(self.topology)
        &&& all_rates_valid(self.rates@)
        &&& self.coords@.len() == self.nodes@.len()
        &&& forall|i: int, j: int|
            0 <= i < j < self.coords@.len() ==> self.coords@[i] != self.coords@[j]
        &&& forall|i: int|
            0 <= i < self.nodes@.len() ==> (#[trigger] self.nodes@[i]).t_infect@.len()
                == self.rates@.len()
        &&& infected_reach(self.nodes@, self.t)
    }

    /// A run that starts at time 0 with one infected site at the origin.
    ///
    /// `lambda` and `alpha` are in millionths; fails with `InvalidParameter`
    /// exactly when some derived rate is not strictly positive.
    pub fn new<S: ExpSource>(topology: Topology, lambda: i64, alpha: i64, src: &mut Recorder<S>) -> (r: Result<Simulation, SimError>)
        ensures
            r is Err <==> !params_valid(topology, lambda as int, alpha as int),
            r matches Err(e) ==> e == SimError::InvalidParameter,
            r matches Ok(s) ==> {
                &&& s.wf()
                &&& s.topology() == topology
                &&& rates_match(topology, lambda as int, alpha as int, s.rates())
                &&& s.time() == 0
                &&& s.events() == 0
                &&& s.coords() == seq![Coord { x: 0, y: 0 }]
                &&& s.nodes().len() == 1
                &&& s.nodes()[0].state == State::Infected
                &&& s.nodes()[0].clocks_reach(0)
                &&& final(src).log().subrange(0, old(src).log().len() as int) == old(src).log()
                &&& final(src).log().len() == old(src).log().len() + s.nodes()[0].clocks().len()
                &&& forall|j: int| 0 <= j < s.nodes()[0].clocks().len() ==> {
                    let e = #[trigger] final(src).log()[old(src).log().len() + j];
                    e.0 == clock_rate(s.rates(), j) && s.nodes()[0].clocks()[j] == next_after(0, e.1)
                }
            },
    {
        let rates = match topology.rates(lambda, alpha) {
            Ok(v) => v,
            Err(e) => {
                return Err(e);
            },
        };
        let start = Node::new(&rates, 0, src);
        let s = Simulation {
            topology,
            rates,
            coords: vec![Coord { x: 0, y: 0 }],
            nodes: vec![start],
            t: 0,
            events: Ghost(0),
        };
        Ok(s)
    }

    /// The index of the site at `c`, if it exists.
    fn find(&self, c: Coord) -> (r: Option<usize>)
        ensures
            r matches Some(i) ==> i < self.coords@.len() && self.coords@[i as int] == c,
            r is None ==> forall|i: int| 0 <= i < self.coords@.len() ==> self.coords@[i] != c,
    {
        let mut i: usize = 0;
        while i < self.coords.len()
            invariant
                i <= self.coords@.len(),
                forall|k: int| 0 <= k < i ==> self.coords@[k] != c,
            decreases self.coords@.len() - i,
        {
            if self.coords[i] == c {
                return Some(i);
            }
            i = i + 1;
        }
        None
    }

    /// The linear-scan scheduler: the first infected site whose first clock
    /// is smallest, or `None` when no site is infected.
    pub fn next_event(&self) -> (r: Option<usize>)
        ensures
            r matches Some(i) ==> is_next_event(self.nodes(), i as int),
            r is None <==> !has_infected(self.nodes()),
    {
        let mut best: Option<usize> = None;
        let mut best_t: u64 = 0;
        let mut i: usize = 0;
        while i < self.nodes.len()
            invariant
                i <= self.nodes@.len(),
                best matches Some(b) ==> {
                    &&& b < i
                    &&& self.nodes@[b as int].state == State::Infected
                    &&& best_t == self.nodes@[b as int].min_clock()
                    &&& forall|k: int|
                        0 <= k < i && self.nodes@[k].state == State::Infected ==> best_t
                            <= #[trigger] self.nodes@[k].min_clock()
                    &&& forall|k: int|
                        0 <= k < b && self.nodes@[k].state == State::Infected ==> best_t
                            < #[trigger] self.nodes@[k].min_clock()
                },
                best is None ==> forall|k: int| 0 <= k < i ==> #[trigger] self.nodes@[k].state != State::Infected,
            decreases self.nodes@.len() - i,
        {
            if self.nodes[i].state == State::Infected {
                let m = self.nodes[i].get_min();
                match best {
                    None => {
                        best = Some(i);
                        best_t = m;
                    },
                    Some(_) => {
                        if m < best_t {
                            best = Some(i);
                            best_t = m;
                        }
                    },
                }
            }
            i = i + 1;
        }
        proof {
            if best is None && has_infected(self.nodes@) {
                let k = choose|k: int| 0 <= k < self.nodes@.len() && #[trigger] self.nodes@[k].state == State::Infected;
                assert(self.nodes@[k].state != State::Infected);
            }
        }
        best
    }

    /// Infection from site `i` in direction `d` at the current time: the
    /// target site is reinfected, or created when it does not exist yet.
    fn infect<S: ExpSource>(&mut self, i: usize, d: usize, src: &mut Recorder<S>)
        requires
            old(self).wf(),
            i < old(self).nodes@.len(),
            d < dir_count(old(self).topology),
        ensures
            final(self).wf(),
            final(self).t == old(self).t,
            final(self).topology == old(self).topology,
            final(self).rates@ == old(self).rates@,
            final(self).nodes@.len() >= old(self).nodes@.len(),
            final(self).nodes@.len() <= old(self).nodes@.len() + 1,
            final(self).coords@.subrange(0, old(self).coords@.len() as int) == old(self).coords@,
            final(self).nodes@[i as int] == old(self).nodes@[i as int],
            forall|k: int|
                0 <= k < old(self).nodes@.len() ==> #[trigger] final(self).nodes@[k].clocks_after(&old(self).nodes@[k]),
            match target_of(old(self).topology, old(self).coords@[i as int], d as int) {
                None => final(self).nodes@ == old(self).nodes@ && final(self).coords@ == old(self).coords@
                    && final(src).log() == old(src).log(),
                Some(c) => {
                    &&& (exists|m: int| 0 <= m < old(self).coords@.len() && old(self).coords@[m] == c)
                        ==> exists|k: int| 0 <= k < old(self).nodes@.len() && old(self).coords@[k] == c
                            && #[trigger] reinfected_by(old(self).nodes@[k], final(self).nodes@[k], old(self).rates@, old(self).t, old(src).log(), final(src).log())
                    &&& (forall|m: int| 0 <= m < old(self).coords@.len() ==> old(self).coords@[m] != c)
                        ==> created_by(final(self).nodes@.last(), old(self).rates@, old(self).t, old(src).log(), final(src).log())
                    &&& (exists|m: int| 0 <= m < old(self).coords@.len() && old(self).coords@[m] == c)
                        ==> final(self).nodes@.len() == old(self).nodes@.len()
                    &&& (forall|m: int| 0 <= m < old(self).coords@.len() ==> old(self).coords@[m] != c)
                        ==> final(self).nodes@.len() == old(self).nodes@.len() + 1
                            && final(self).coords@.last() == c
                    &&& exists|k: int|
                        0 <= k < final(self).nodes@.len() && final(self).coords@[k] == c
                            && final(self).nodes@[k].state == State::Infected
                            && final(self).nodes@[k].clocks_reach(old(self).t)
                    &&& forall|m: int|
                        0 <= m < old(self).nodes@.len() && old(self).coords@[m] != c
                            ==> #[trigger] final(self).nodes@[m] == old(self).nodes@[m]
                },
            },
    {
        let target = self.topology.neighbor(self.coords[i], d);
        let c = match target {
            Some(c) => c,
            None => {
                return;
            },
        };
        let ghost pre = *self;
        match self.find(c) {
            Some(k) => {
                assert(k != i);
                let ghost log0 = src.log();
                self.nodes[k].infect(&self.rates, self.t, src);
                assert(reinfected_by(pre.nodes@[k as int], self.nodes@[k as int], pre.rates@, pre.t, log0, src.log()));
                assert(self.coords@[k as int] == c && self.nodes@[k as int].state == State::Infected);
                assert forall|m: int|
                    0 <= m < pre.nodes@.len() && pre.coords@[m] != c implies #[trigger] self.nodes@[m] == pre.nodes@[m] by {
                    assert(m != k);
                }
                assert forall|a: int, b: int| 0 <= a < b < self.coords@.len() implies self.coords@[a] != self.coords@[b] by {
                    assert(pre.coords@[a] != pre.coords@[b]);
                }
                assert(self.coords@.subrange(0, pre.coords@.len() as int) =~= pre.coords@);
                assert forall|m: int|
                    0 <= m < self.nodes@.len() && (#[trigger] self.nodes@[m]).state == State::Infected
                        implies self.nodes@[m].clocks_reach(self.t) by {
                    if m != k {
                        assert(self.nodes@[m] == pre.nodes@[m]);
                    }
                }
                assert forall|m: int| 0 <= m < self.nodes@.len() implies (#[trigger] self.nodes@[m]).t_infect@.len() == self.rates@.len() by {
                    if m != k {
                        assert(self.nodes@[m] == pre.nodes@[m]);
                    }
                }
                assert forall|m: int| 0 <= m < pre.nodes@.len() implies #[trigger] self.nodes@[m].clocks_after(&pre.nodes@[m]) by {
                    if m != k {
                        assert(self.nodes@[m] == pre.nodes@[m]);
                    }
                }
            },
            None => {
                let n = Node::new(&self.rates, self.t, src);
                assert(forall|m: int| 0 <= m < pre.coords@.len() ==> pre.coords@[m] != c);
                self.coords.push(c);
                self.nodes.push(n);
                assert(self.coords@[pre.coords@.len() as int] == c);
                assert forall|m: int|
                    0 <= m < pre.nodes@.len() && pre.coords@[m] != c implies #[trigger] self.nodes@[m] == pre.nodes@[m] by {}
                assert forall|a: int, b: int| 0 <= a < b < self.coords@.len() implies self.coords@[a] != self.coords@[b] by {
                    if b < pre.coords@.len() {
                        assert(pre.coords@[a] != pre.coords@[b]);
                    } else {
                        assert(pre.coords@[a] != c);
                    }
                }
                assert(self.coords@.subrange(0, pre.coords@.len() as int) =~= pre.coords@);
                assert forall|m: int|
                    0 <= m < self.nodes@.len() && (#[trigger] self.nodes@[m]).state == State::Infected
                        implies self.nodes@[m].clocks_reach(self.t) by {
                    if m < pre.nodes@.len() {
                        assert(self.nodes@[m] == pre.nodes@[m]);
                    }
                }
                assert forall|m: int| 0 <= m < self.nodes@.len() implies (#[trigger] self.nodes@[m]).t_infect@.len() == self.rates@.len() by {
                    if m < pre.nodes@.len() {
                        assert(self.nodes@[m] == pre.nodes@[m]);
                    }
                }
                assert forall|m: int| 0 <= m < pre.nodes@.len() implies #[trigger] self.nodes@[m].clocks_after(&pre.nodes@[m]) by {
                    assert(self.nodes@[m] == pre.nodes@[m]);
                }
            },
        }
    }

    /// Performs the next event, if any site is infected: time jumps to the
    /// event's clock; an infection reaches its target site; then the acting
    /// site fires its first clock. Returns `false`, changing nothing, when no
    /// site is infected.
    pub fn step<S: ExpSource>(&mut self, src: &mut Recorder<S>) -> (r: bool)
        requires
            old(self).wf(),
        ensures
            final(self).wf(),
            final(self).topology() == old(self).topology(),
            final(self).rates() == old(self).rates(),
            r <==> has_infected(old(self).nodes()),
            r ==> exists|i: int| is_next_event(old(self).nodes(), i),
            !r ==> *final(self) == *old(self),
            final(self).time() >= old(self).time(),
            final(self).coords().subrange(0, old(self).coords().len() as int) == old(self).coords(),
            final(self).nodes().len() <= old(self).nodes().len() + 1,
            final(self).nodes().len() >= old(self).nodes().len(),
            r ==> final(self).events() == old(self).events() + 1,
            forall|i: int| is_next_event(old(self).nodes(), i) ==> event_done(old(self), final(self), i),
            forall|i: int| is_next_event(old(self).nodes(), i) ==> {
                let n = old(self).nodes()[i];
                let j = first_min_index(n.clocks());
                let tgt = if j > 0 { target_of(old(self).topology(), old(self).coords()[i], j - 1) } else { None };
                &&& tgt matches Some(c) ==> target_drawn(old(self), final(self), c, old(src).log(), final(src).log().drop_last())
                &&& tgt is None ==> final(src).log().drop_last() == old(src).log()
            },
            forall|i: int| is_next_event(old(self).nodes(), i) ==> {
                let n = old(self).nodes()[i];
                let j = first_min_index(n.clocks());
                let e = final(src).log().last();
                &&& e.0 == clock_rate(old(self).rates(), j)
                &&& final(self).nodes()[i].clocks()[j] == next_after(n.clocks()[j], e.1)
            },
            infected_reach(final(self).nodes(), final(self).time()),
    {
        let i = match self.next_event() {
            Some(i) => i,
            None => {
                return false;
            },
        };
        let ghost pre = *self;
        let m = self.nodes[i].get_min();
        let p = self.nodes[i].get_min_state();
        proof {
            let n = pre.nodes@[i as int];
            assert(n.clocks_reach(pre.t));
            let k = choose|k: int| 0 <= k < n.clocks().len() && m == #[trigger] n.clocks()[k];
            assert(n.clocks()[k] >= pre.t);
            assert forall|a: int|
                0 <= a < pre.nodes@.len() && (#[trigger] pre.nodes@[a]).state == State::Infected
                    implies pre.nodes@[a].clocks_reach(m) by {
                let na = pre.nodes@[a];
                assert(m <= na.min_clock());
                lemma_min_clock_below(na);
            }
        }
        self.t = m;
        let ghost log0 = src.log();
        match p {
            InfectProgress::Infect(d) => {
                self.infect(i, d, src);
            },
            InfectProgress::Heal => {},
        }
        let ghost mid = self.nodes@;
        let ghost mid_coords = self.coords@;
        let ghost mid_log = src.log();
        self.nodes[i].step(&self.rates, src);
        self.events = Ghost(pre.events@ + 1);
        proof {
            let n = pre.nodes@[i as int];
            let j = first_min_index(n.clocks());
            lemma_min_clock_below(n);
            assert(j == progress_index(p));
            assert(mid[i as int] == n);
            assert forall|i2: int| is_next_event(pre.nodes@, i2) implies i2 == i by {
                lemma_next_event_unique(pre.nodes@, i2, i as int);
            }
            let post = *self;
            let tgt = if j > 0 { target_of(pre.topology, pre.coords@[i as int], j - 1) } else { None };
            assert(tgt matches Some(c) ==> (exists|k: int|
                0 <= k < post.nodes().len() && post.coords()[k] == c
                    && post.nodes()[k].state == State::Infected
                    && post.nodes()[k].clocks_reach(post.time()))) by {
                if let Some(c) = tgt {
                    let k = choose|k: int|
                        0 <= k < mid.len() && self.coords@[k] == c && mid[k].state == State::Infected
                            && mid[k].clocks_reach(m);
                    assert(c != pre.coords@[i as int]);
                    assert(post.nodes()[k] == mid[k]);
                    assert(0 <= k < post.nodes().len() && post.coords()[k] == c
                        && post.nodes()[k].state == State::Infected
                        && post.nodes()[k].clocks_reach(post.time()));
                }
            }
            assert forall|m2: int|
                0 <= m2 < pre.nodes().len() && m2 != i && tgt != Some(pre.coords()[m2])
                    implies #[trigger] post.nodes()[m2] == pre.nodes()[m2] by {
                assert(self.nodes@[m2] == mid[m2]);
            }
            assert(event_done(&pre, &post, i as int));
            assert(src.log().drop_last() =~= mid_log);
            if let Some(c) = tgt {
                assert(target_drawn(&pre, &post, c, log0, mid_log)) by {
                    if exists|m2: int| 0 <= m2 < pre.coords().len() && pre.coords()[m2] == c {
                        let k = choose|k: int| 0 <= k < pre.nodes@.len() && pre.coords@[k] == c
                            && #[trigger] reinfected_by(pre.nodes@[k], mid[k], pre.rates@, m, log0, mid_log);
                        assert(c != pre.coords@[i as int]);
                        assert(k != i as int);
                        assert(self.nodes@[k] == mid[k]);
                        assert(post.nodes()[k] == mid[k]);
                        assert(reinfected_by(pre.nodes()[k], post.nodes()[k], pre.rates(), post.time(), log0, mid_log));
                    }
                    if forall|m2: int| 0 <= m2 < pre.coords().len() ==> pre.coords()[m2] != c {
                        assert(post.nodes().last() == mid.last());
                    }
                }
            }
        }
        true
    }

    /// Runs events while the time is below `horizon`. Returns `true` exactly
    /// when the epidemic died out before `horizon`. A horizon at or below the
    /// current time performs no event.
    ///
    /// At most `u64::MAX` events are performed in one call.
    pub fn run<S: ExpSource>(&mut self, horizon: u64, src: &mut Recorder<S>) -> (r: bool)
        requires
            old(self).wf(),
        ensures
            final(self).wf(),
            final(self).topology() == old(self).topology(),
            final(self).rates() == old(self).rates(),
            r <==> final(self).time() < horizon && !has_infected(final(self).nodes()),
            r ==> count_infected(final(self).nodes()) == 0,
            !r ==> final(self).time() >= horizon || final(self).events() >= old(self).events() + u64::MAX,
            old(self).time() < horizon && !has_infected(old(self).nodes()) ==> r && *final(self) == *old(self),
            horizon <= old(self).time() ==> *final(self) == *old(self) && final(src).log() == old(src).log(),
            final(self).time() >= old(self).time(),
            final(self).events() >= old(self).events(),
            final(self).nodes().len() >= old(self).nodes().len(),
            final(self).coords().subrange(0, old(self).coords().len() as int) == old(self).coords(),
            infected_reach(final(self).nodes(), final(self).time()),
            final(self).events() >= old(self).events(),
            run_path(*old(self), *final(self), horizon, (final(self).events() - old(self).events()) as nat),
    {
        proof {
            lemma_run_path_empty(*self, horizon);
        }
        if horizon <= self.t {
            return false;
        }
        let mut budget: u64 = u64::MAX;
        while self.t < horizon
            invariant
                self.wf(),
                self.topology == old(self).topology,
                self.rates@ == old(self).rates@,
                self.t >= old(self).t,
                self.events@ >= old(self).events@ + (u64::MAX - budget),
                self.nodes@.len() >= old(self).nodes@.len(),
                old(self).coords@.len() == old(self).nodes@.len(),
                self.coords@.subrange(0, old(self).coords@.len() as int) == old(self).coords@,
                !has_infected(old(self).nodes@) ==> *self == *old(self),
                self.events@ >= old(self).events@,
                run_path(*old(self), *self, horizon, (self.events@ - old(self).events@) as nat),
            decreases budget,
        {
            if budget == 0 {
                let done = self.next_event().is_none();
                proof {
                    lemma_count_zero(self.nodes());
                }
                return done;
            }
            let ghost before = *self;
            if !self.step(src) {
                proof {
                    lemma_count_zero(self.nodes());
                }
                return true;
            }
            proof {
                let i = choose|i: int| is_next_event(before.nodes(), i);
                let post = *self;
                assert(event_done(&before, &post, i));
                let kk = (self.events@ - old(self).events@) as nat;
                assert(kk >= 1);
                assert((kk - 1) as nat == (before.events@ - old(self).events@) as nat);
                assert(run_path(*old(self), before, horizon, (kk - 1) as nat));
                assert(before.time() < horizon);
                assert(is_next_event(before.nodes(), i));
                lemma_run_path_extend(*old(self), before, post, horizon, (kk - 1) as nat, i);
                assert(run_path(*old(self), post, horizon, kk));
                let k = old(self).coords@.len() as int;
                assert(old(self).coords@.len() == old(self).nodes@.len());
                assert(before.coords@.len() == before.nodes@.len());
                assert(before.coords@.len() >= k);
                assert(before.coords@.subrange(0, k) == old(self).coords@);
                assert(self.coords@.subrange(0, before.coords@.len() as int) == before.coords@);
                assert(self.coords@.len() >= before.coords@.len());
                assert forall|x: int| 0 <= x < k implies self.coords@[x] == old(self).coords@[x] by {
                    assert(self.coords@.subrange(0, before.coords@.len() as int)[x] == before.coords@[x]);
                    assert(before.coords@.subrange(0, k)[x] == old(self).coords@[x]);
                }
                assert(self.coords@.subrange(0, k) =~= old(self).coords@);
            }
            budget = budget - 1;
        }
        false
    }

    /// The number of infected sites.
    pub fn get_number_of_infected_nodes(&self) -> (r: usize)
        ensures
            r == count_infected(self.nodes()),
    {
        let mut count: usize = 0;
        let mut i: usize = 0;
        while i < self.nodes.len()
            invariant
                i <= self.nodes@.len(),
                count <= i,
                count == count_infected(self.nodes@.subrange(0, i as int)),
            decreases self.nodes@.len() - i,
        {
            assert(self.nodes@.subrange(0, i + 1).drop_last() =~= self.nodes@.subrange(0, i as int));
            if self.nodes[i].state == State::Infected {
                count = count + 1;
            }
            i = i + 1;
        }
        assert(self.nodes@.subrange(0, i as int) =~= self.nodes@);
        count
    }

    /// The time of the last event.
    pub fn time_now(&self) -> (r: u64)
        ensures
            r == self.time(),
    {
        self.t
    }

    /// The number of sites ever infected.
    pub fn site_count(&self) -> (r: usize)
        ensures
            r == self.nodes().len(),
    {
        self.nodes.len()
    }

    /// The site at `c`, if it was ever infected.
    pub fn site(&self, c: Coord) -> (r: Option<&Node>)
        requires
            self.wf(),
        ensures
            r matches Some(n) ==> exists|i: int| 0 <= i < self.coords().len() && self.coords()[i] == c && self.nodes()[i] == *n,
            r is None ==> forall|i: int| 0 <= i < self.coords().len() ==> self.coords()[i] != c,
    {
        match self.find(c) {
            Some(i) => {
                let n = &self.nodes[i];
                assert(self.coords()[i as int] == c && self.nodes()[i as int] == *n);
                Some(n)
            },
            None => None,
        }
    }
}

} // verus!
