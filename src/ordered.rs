//! The ordered scheduler for the line: sites kept in an arena of stable
//! handles, an index of handles sorted by (state, first clock, handle), and
//! explicit links between lattice neighbours.
//!
//! A handle is the position of a site in the arena. Sites are never removed,
//! so a handle stays valid for the whole run; when a site's sort key changes,
//! only its place in the index moves, and the neighbour links, which hold
//! handles, need no rewriting.
//!
//! The index is a vector kept in sort order: the first entry answers the
//! scheduler's question, and a handle's place is found by binary search.
use vstd::prelude::*;
use crate::clock::{Rate, Recorder, SimError, ExpSource, next_after};
use crate::node::{Node, State, InfectProgress, progress_index, clock_rate, all_rates_valid, first_min_index, is_first_min, lemma_min_clock_below};
use crate::topology::{Topology, dir_count, params_valid, rates_match};
use crate::simulation::{Simulation, is_next_event, has_infected, infected_reach, count_infected, lemma_count_zero};

verus! {

/// One site of the line, with the handles of its left and right neighbours.
#[derive(Clone, Debug)]
pub struct Entry {
    pub node: Node,
    pub v: i64,
    pub left: Option<usize>,
    pub right: Option<usize>,
}

/// Infected entries sort before healthy ones.
pub open spec fn rank(s: State) -> int {
    match s {
        State::Infected => 0,
        State::Healthy => 1,
    }
}

/// The sort order of the index: infected before healthy, then by first
/// clock, then by handle.
pub open spec fn key_lt(es: Seq<Entry>, a: int, b: int) -> bool {
    let na = es[a].node;
    let nb = es[b].node;
    ||| rank(na.state) < rank(nb.state)
    ||| rank(na.state) == rank(nb.state) && na.min_clock() < nb.min_clock()
    ||| rank(na.state) == rank(nb.state) && na.min_clock() == nb.min_clock() && a < b
}

pub open spec fn sorted_by_key(es: Seq<Entry>, order: Seq<usize>) -> bool {
    forall|i: int, j: int|
        #![trigger order[i], order[j]]
        0 <= i < j < order.len() ==> key_lt(es, order[i] as int, order[j] as int)
}

/// `order` holds each handle below `n` exactly once.
pub open spec fn is_permutation(order: Seq<usize>, n: nat) -> bool {
    &&& order.len() == n
    &&& forall|i: int| 0 <= i < order.len() ==> #[trigger] order[i] < n
    &&& forall|i: int, j: int| 0 <= i < j < order.len() ==> order[i] != order[j]
    &&& forall|h: int| 0 <= h < n ==> #[trigger] order.contains(h as usize)
}

/// The coordinate and the two neighbour links of each entry.
pub open spec fn link_view(es: Seq<Entry>) -> Seq<(i64, Option<usize>, Option<usize>)> {
    es.map_values(|e: Entry| (e.v, e.left, e.right))
}

/// The neighbour links form a chain in ascending coordinate: following a
/// link and then the link back returns to the start, and a missing link
/// marks an end of the infected stretch.
pub open spec fn chain_ok(es: Seq<Entry>) -> bool {
    links_ok(link_view(es))
}

#[verifier::opaque]
pub open spec fn links_ok(ls: Seq<(i64, Option<usize>, Option<usize>)>) -> bool {
    &&& forall|h: int| 0 <= h < ls.len() ==> match (#[trigger] ls[h]).1 {
        Some(l) => l < ls.len() && ls[l as int].0 == ls[h].0 - 1 && ls[l as int].2 == Some(h as usize),
        None => forall|g: int| 0 <= g < ls.len() ==> #[trigger] ls[g].0 >= ls[h].0,
    }
    &&& forall|h: int| 0 <= h < ls.len() ==> match (#[trigger] ls[h]).2 {
        Some(r) => r < ls.len() && ls[r as int].0 == ls[h].0 + 1 && ls[r as int].1 == Some(h as usize),
        None => forall|g: int| 0 <= g < ls.len() ==> #[trigger] ls[g].0 <= ls[h].0,
    }
    &&& forall|g: int, h: int| 0 <= g < h < ls.len() ==> ls[g].0 != ls[h].0
}

/// Adding a new leftmost entry beside `h`, linked both ways, keeps the chain.
pub proof fn lemma_links_push_left(ls: Seq<(i64, Option<usize>, Option<usize>)>, h: int)
    requires
        links_ok(ls),
        0 <= h < ls.len(),
        ls[h].1 is None,
        ls[h].0 > i64::MIN,
        ls.len() < usize::MAX,
    ensures
        links_ok(ls.update(h, (ls[h].0, Some(ls.len() as usize), ls[h].2)).push(((ls[h].0 - 1) as i64, None, Some(h as usize)))),
{
    reveal(links_ok);
    let n = ls.len() as int;
    let ls2 = ls.update(h, (ls[h].0, Some(n as usize), ls[h].2)).push(((ls[h].0 - 1) as i64, None, Some(h as usize)));
    assert(ls2.len() == n + 1);
    assert(ls2[n] == ((ls[h].0 - 1) as i64, None::<usize>, Some(h as usize)));
    assert(ls2[h] == (ls[h].0, Some(n as usize), ls[h].2));
    assert forall|g: int| 0 <= g < n && g != h implies #[trigger] ls2[g] == ls[g] by {}
    assert forall|g: int| 0 <= g < n implies (#[trigger] ls2[g]).0 == ls[g].0 && ls[g].0 >= ls[h].0 by {}
    assert((n as usize) as int == n);
    assert forall|k: int| 0 <= k < ls2.len() implies match (#[trigger] ls2[k]).1 {
        Some(l) => l < ls2.len() && ls2[l as int].0 == ls2[k].0 - 1 && ls2[l as int].2 == Some(k as usize),
        None => forall|g: int| 0 <= g < ls2.len() ==> #[trigger] ls2[g].0 >= ls2[k].0,
    } by {
        if k < n && k != h {
            assert(ls2[k] == ls[k]);
            match ls[k].1 {
                Some(l) => {
                    if l as int != h {
                        assert(ls2[l as int] == ls[l as int]);
                    }
                },
                None => {
                    assert forall|g: int| 0 <= g < ls2.len() implies #[trigger] ls2[g].0 >= ls2[k].0 by {
                        if g < n {
                            assert(ls[g].0 >= ls[k].0);
                        } else {
                            assert(ls[h].0 >= ls[k].0);
                            assert(ls[k].0 >= ls[h].0);
                        }
                    }
                },
            }
        }
    }
    assert forall|k: int| 0 <= k < ls2.len() implies match (#[trigger] ls2[k]).2 {
        Some(r) => r < ls2.len() && ls2[r as int].0 == ls2[k].0 + 1 && ls2[r as int].1 == Some(k as usize),
        None => forall|g: int| 0 <= g < ls2.len() ==> #[trigger] ls2[g].0 <= ls2[k].0,
    } by {
        if k < n {
            match ls[k].2 {
                Some(r) => {
                    if r as int == h {
                        assert(ls[h].1 == Some(k as usize));
                    } else {
                        assert(ls2[r as int] == ls[r as int]);
                    }
                },
                None => {
                    assert forall|g: int| 0 <= g < ls2.len() implies #[trigger] ls2[g].0 <= ls2[k].0 by {
                        if g < n {
                            assert(ls[g].0 <= ls[k].0);
                        } else {
                            assert(ls[h].0 <= ls[k].0);
                        }
                    }
                },
            }
        }
    }
    assert forall|g: int, k: int| 0 <= g < k < ls2.len() implies ls2[g].0 != ls2[k].0 by {
        if k < n {
            assert(ls[g].0 != ls[k].0);
        }
    }
}

/// Adding a new rightmost entry beside `h`, linked both ways, keeps the chain.
pub proof fn lemma_links_push_right(ls: Seq<(i64, Option<usize>, Option<usize>)>, h: int)
    requires
        links_ok(ls),
        0 <= h < ls.len(),
        ls[h].2 is None,
        ls[h].0 < i64::MAX,
        ls.len() < usize::MAX,
    ensures
        links_ok(ls.update(h, (ls[h].0, ls[h].1, Some(ls.len() as usize))).push(((ls[h].0 + 1) as i64, Some(h as usize), None))),
{
    reveal(links_ok);
    let n = ls.len() as int;
    let ls2 = ls.update(h, (ls[h].0, ls[h].1, Some(n as usize))).push(((ls[h].0 + 1) as i64, Some(h as usize), None));
    assert(ls2.len() == n + 1);
    assert(ls2[n] == ((ls[h].0 + 1) as i64, Some(h as usize), None::<usize>));
    assert(ls2[h] == (ls[h].0, ls[h].1, Some(n as usize)));
    assert forall|g: int| 0 <= g < n && g != h implies #[trigger] ls2[g] == ls[g] by {}
    assert forall|g: int| 0 <= g < n implies (#[trigger] ls2[g]).0 == ls[g].0 && ls[g].0 <= ls[h].0 by {}
    assert((n as usize) as int == n);
    assert forall|k: int| 0 <= k < ls2.len() implies match (#[trigger] ls2[k]).2 {
        Some(r) => r < ls2.len() && ls2[r as int].0 == ls2[k].0 + 1 && ls2[r as int].1 == Some(k as usize),
        None => forall|g: int| 0 <= g < ls2.len() ==> #[trigger] ls2[g].0 <= ls2[k].0,
    } by {
        if k < n && k != h {
            assert(ls2[k] == ls[k]);
            match ls[k].2 {
                Some(r) => {
                    if r as int != h {
                        assert(ls2[r as int] == ls[r as int]);
                    }
                },
                None => {
                    assert forall|g: int| 0 <= g < ls2.len() implies #[trigger] ls2[g].0 <= ls2[k].0 by {
                        if g < n {
                            assert(ls[g].0 <= ls[k].0);
                        } else {
                            assert(ls[h].0 <= ls[k].0);
                            assert(ls[k].0 <= ls[h].0);
                        }
                    }
                },
            }
        }
    }
    assert forall|k: int| 0 <= k < ls2.len() implies match (#[trigger] ls2[k]).1 {
        Some(l) => l < ls2.len() && ls2[l as int].0 == ls2[k].0 - 1 && ls2[l as int].2 == Some(k as usize),
        None => forall|g: int| 0 <= g < ls2.len() ==> #[trigger] ls2[g].0 >= ls2[k].0,
    } by {
        if k < n {
            match ls[k].1 {
                Some(l) => {
                    if l as int == h {
                        assert(ls[h].2 == Some(k as usize));
                    } else {
                        assert(ls2[l as int] == ls[l as int]);
                    }
                },
                None => {
                    assert forall|g: int| 0 <= g < ls2.len() implies #[trigger] ls2[g].0 >= ls2[k].0 by {
                        if g < n {
                            assert(ls[g].0 >= ls[k].0);
                        } else {
                            assert(ls[h].0 >= ls[k].0);
                        }
                    }
                },
            }
        }
    }
    assert forall|g: int, k: int| 0 <= g < k < ls2.len() implies ls2[g].0 != ls2[k].0 by {
        if k < n {
            assert(ls[g].0 != ls[k].0);
        }
    }
}

/// Following a link and then the link back returns to the start (`.1` is
/// the left link, `.2` the right link, `.0` the coordinate), no two
/// entries share a coordinate, and a missing link means that no entry holds
/// the neighbouring coordinate on that side.
pub open spec fn chain_round_trips(ls: Seq<(i64, Option<usize>, Option<usize>)>) -> bool {
    &&& forall|h: int| 0 <= h < ls.len() ==> match (#[trigger] ls[h]).1 {
        Some(l) => l < ls.len() && ls[l as int].0 == ls[h].0 - 1 && ls[l as int].2 == Some(h as usize),
        None => true,
    }
    &&& forall|h: int| 0 <= h < ls.len() ==> match (#[trigger] ls[h]).2 {
        Some(r) => r < ls.len() && ls[r as int].0 == ls[h].0 + 1 && ls[r as int].1 == Some(h as usize),
        None => true,
    }
    &&& forall|g: int, h: int| 0 <= g < ls.len() && 0 <= h < ls.len() && g != h ==> #[trigger] ls[g].0 != #[trigger] ls[h].0
    &&& forall|g: int, h: int|
        0 <= g < ls.len() && 0 <= h < ls.len() && ls[h].1 is None ==> #[trigger] ls[g].0 != #[trigger] ls[h].0 - 1
    &&& forall|g: int, h: int|
        0 <= g < ls.len() && 0 <= h < ls.len() && ls[h].2 is None ==> #[trigger] ls[g].0 != #[trigger] ls[h].0 + 1
}

/// A well-formed chain round-trips.
pub proof fn lemma_links_round_trip(ls: Seq<(i64, Option<usize>, Option<usize>)>)
    requires
        links_ok(ls),
    ensures
        chain_round_trips(ls),
{
    reveal(links_ok);
    assert forall|g: int, h: int| 0 <= g < ls.len() && 0 <= h < ls.len() && g != h implies #[trigger] ls[g].0 != #[trigger] ls[h].0 by {
        if g > h {
            assert(ls[h].0 != ls[g].0);
        }
    }
}

/// `order` holds each handle below `n` but `h` exactly once, and not `h`.
pub open spec fn is_permutation_without(order: Seq<usize>, n: nat, h: usize) -> bool {
    &&& order.len() + 1 == n
    &&& forall|i: int| 0 <= i < order.len() ==> #[trigger] order[i] < n && order[i] != h
    &&& forall|i: int, j: int| 0 <= i < j < order.len() ==> order[i] != order[j]
    &&& forall|g: int| 0 <= g < n && g != h ==> #[trigger] order.contains(g as usize)
}

/// The sort keys of the handles in `order` agree between `a` and `b`.
pub open spec fn same_keys_on(a: Seq<Entry>, b: Seq<Entry>, order: Seq<usize>) -> bool {
    forall|i: int| 0 <= i < order.len() ==> #[trigger] a[order[i] as int].node == b[order[i] as int].node
}

/// The index stays sorted when only entries outside it change their nodes.
pub proof fn lemma_sorted_frame(a: Seq<Entry>, b: Seq<Entry>, order: Seq<usize>)
    requires
        sorted_by_key(a, order),
        same_keys_on(a, b, order),
    ensures
        sorted_by_key(b, order),
{
    assert forall|i: int, j: int| #![trigger order[i], order[j]] 0 <= i < j < order.len() implies key_lt(b, order[i] as int, order[j] as int) by {
        assert(a[order[i] as int].node == b[order[i] as int].node);
        assert(a[order[j] as int].node == b[order[j] as int].node);
        assert(key_lt(a, order[i] as int, order[j] as int));
    }
}

/// The nodes of the entries, by handle.
pub open spec fn entry_nodes(es: Seq<Entry>) -> Seq<Node> {
    es.map_values(|e: Entry| e.node)
}

/// The coordinate that direction clock `j` of a site at `v` infects: the
/// first direction is to the left, the second to the right.
pub open spec fn line_target(v: i64, j: int) -> int {
    if j == 1 {
        v - 1
    } else {
        v + 1
    }
}

/// After the infection part of an event of the site with handle `h` at time
/// `m`, whose first clock is `j` and whose target coordinate is `tv`: the
/// target exists and is infected where it existed or could be created, a new
/// entry is appended only for a new target and linked to `h`, and every other
/// entry keeps its node and coordinate.
pub open spec fn target_reached(pre: Seq<Entry>, mid: Seq<Entry>, h: int, j: int, tv: int, m: u64) -> bool {
    &&& (j > 0 && ((exists|g: int| 0 <= g < pre.len() && pre[g].v == tv)
        || (i64::MIN <= tv <= i64::MAX && pre.len() < usize::MAX))) ==> (exists|k: int|
        0 <= k < mid.len() && mid[k].v == tv && mid[k].node.state == State::Infected
            && mid[k].node.clocks_reach(m))
    &&& forall|q: int| 0 <= q < pre.len() && q != h && (j == 0 || pre[q].v != tv) ==> #[trigger] mid[q].node == pre[q].node
    &&& forall|q: int| 0 <= q < pre.len() ==> #[trigger] mid[q].v == pre[q].v
    &&& mid.len() == pre.len() || mid.len() == pre.len() + 1
    &&& mid[h].node == pre[h].node
    &&& mid.len() == pre.len() ==> mid[h].left == pre[h].left && mid[h].right == pre[h].right
    &&& mid.len() == pre.len() + 1 ==> {
        let n = pre.len() as int;
        let e = mid[n];
        &&& j > 0 && e.v == tv
        &&& e.node.state == State::Infected
        &&& j == 1 ==> e.left is None && e.right == Some(h as usize) && mid[h].left == Some(n as usize)
        &&& j == 2 ==> e.right is None && e.left == Some(h as usize) && mid[h].right == Some(n as usize)
    }
}

/// What one event did on the line: `post` is `pre` after the site with handle
/// `i` acted at its first clock. Time jumps to that clock; the clock moves on
/// (recovery also heals the site, other clocks are kept after an infection);
/// an infection reaches the neighbouring coordinate, whose site then exists,
/// is infected and has every clock at or past the new time (unless the
/// neighbour lies outside the coordinate range or the arena is full); every
/// other site of `pre` keeps its node.
#[verifier::opaque]
pub open spec fn line_event_done(pre: &OrderedSimulation, post: &OrderedSimulation, i: int) -> bool {
    let n = pre.nodes()[i];
    let j = first_min_index(n.clocks());
    let tv = line_target(pre.entries()[i].v, j);
    &&& post.time() == n.min_clock()
    &&& (post.nodes()[i].clocks()[j] > n.min_clock() || post.nodes()[i].clocks()[j] == u64::MAX)
    &&& (j == 0 <==> post.nodes()[i].state == State::Healthy)
    &&& j == 0 ==> post.nodes()[i].clocks_reach(n.min_clock())
    &&& j > 0 ==> (forall|k: int| 0 <= k < n.clocks().len() && k != j
        ==> #[trigger] post.nodes()[i].clocks()[k] == n.clocks()[k])
    &&& j == 0 ==> post.nodes().len() == pre.nodes().len()
    &&& post.entries().len() <= pre.entries().len() + 1
    &&& post.entries().len() == pre.entries().len() + 1 ==> {
        let n = pre.entries().len() as int;
        let e = post.entries()[n];
        &&& j > 0 && e.v == tv
        &&& e.node.state == State::Infected
        &&& j == 1 ==> e.left is None && e.right == Some(i as usize) && post.entries()[i].left == Some(n as usize)
        &&& j == 2 ==> e.right is None && e.left == Some(i as usize) && post.entries()[i].right == Some(n as usize)
    }
    &&& (j > 0 && ((exists|g: int| 0 <= g < pre.entries().len() && pre.entries()[g].v == tv)
        || (i64::MIN <= tv <= i64::MAX && pre.entries().len() < usize::MAX))) ==> (exists|k: int|
        0 <= k < post.entries().len() && post.entries()[k].v == tv
            && post.nodes()[k].state == State::Infected
            && post.nodes()[k].clocks_reach(post.time()))
    &&& forall|m: int|
        0 <= m < pre.nodes().len() && m != i && (j == 0 || pre.entries()[m].v != tv)
            ==> #[trigger] post.nodes()[m] == pre.nodes()[m]
}

/// `b` is `a` after its next event.
pub open spec fn line_one_event(a: OrderedSimulation, b: OrderedSimulation) -> bool {
    exists|i: int| #[trigger] is_next_event(a.nodes(), i) && line_event_done(&a, &b, i)
}

/// `ss` is a sequence of states, each the one before it after its next
/// event, each event taken while the time was below `horizon`.
pub open spec fn line_event_chain(ss: Seq<OrderedSimulation>, horizon: u64) -> bool {
    forall|j: int| 0 <= j < ss.len() - 1 ==> (#[trigger] ss[j]).time() < horizon && line_one_event(ss[j], ss[j + 1])
}

/// `b` is reached from `a` by `k` events in a row.
pub open spec fn line_run_path(a: OrderedSimulation, b: OrderedSimulation, horizon: u64, k: nat) -> bool {
    exists|ss: Seq<OrderedSimulation>|
        #[trigger] line_event_chain(ss, horizon) && ss.len() == k + 1 && ss[0] == a && ss[k as int] == b
}

/// One more event extends a path by one.
pub proof fn lemma_line_run_path_extend(
    a: OrderedSimulation,
    m: OrderedSimulation,
    b: OrderedSimulation,
    horizon: u64,
    k: nat,
    i: int,
)
    requires
        line_run_path(a, m, horizon, k),
        m.time() < horizon,
        is_next_event(m.nodes(), i),
        line_event_done(&m, &b, i),
    ensures
        line_run_path(a, b, horizon, k + 1),
{
    let ss = choose|ss: Seq<OrderedSimulation>| #[trigger] line_event_chain(ss, horizon) && ss.len() == k + 1 && ss[0] == a && ss[k as int] == m;
    let ss2 = ss.push(b);
    assert(line_one_event(m, b));
    assert forall|j: int| 0 <= j < ss2.len() - 1 implies (#[trigger] ss2[j]).time() < horizon && line_one_event(ss2[j], ss2[j + 1]) by {
        if j < k {
            assert(ss2[j] == ss[j] && ss2[j + 1] == ss[j + 1]);
        } else {
            assert(ss2[j] == m && ss2[j + 1] == b);
        }
    }
    assert(line_event_chain(ss2, horizon));
    assert(ss2[(k + 1) as int] == b && ss2[0] == a);
}

/// A path of no event.
pub proof fn lemma_line_run_path_empty(a: OrderedSimulation, horizon: u64)
    ensures
        line_run_path(a, a, horizon, 0),
{
    let ss = seq![a];
    assert(line_event_chain(ss, horizon));
}

/// One run of the contact process on the line, scheduled through the
/// ordered index.
pub struct OrderedSimulation {
    rates: Vec<Rate>,
    entries: Vec<Entry>,
    order: Vec<usize>,
    t: u64,
    events: Ghost<nat>,
}

impl OrderedSimulation {
    pub closed spec fn entries(&self) -> Seq<Entry> {
        self.entries@
    }

    /// The sites, in order of creation (by handle).
    pub closed spec fn nodes(&self) -> Seq<Node> {
        entry_nodes(self.entries@)
    }

    /// There is one node per entry: the entry's own.
    pub proof fn lemma_nodes_are_entries(&self)
        ensures
            self.nodes().len() == self.entries().len(),
            forall|k: int| 0 <= k < self.entries().len() ==> #[trigger] self.nodes()[k] == self.entries()[k].node,
    {
    }

    pub closed spec fn index(&self) -> Seq<usize> {
        self.order@
    }

    pub closed spec fn rates(&self) -> Seq<Rate> {
        self.rates@
    }

    pub closed spec fn time(&self) -> u64 {
        self.t
    }

    /// The number of events performed since the start.
    pub closed spec fn events(&self) -> nat {
        self.events@
    }

    pub closed spec fn wf(&self) -> bool {
        &&& self.rates@.len() == dir_count(Topology::Line)
        &&& all_rates_valid(self.rates@)
        &&& self.entries@.len() >= 1
        &&& is_permutation(self.order@, self.entries@.len())
        &&& sorted_by_key(self.entries@, self.order@)
        &&& chain_ok(self.entries@)
        &&& forall|h: int| 0 <= h < self.entries@.len() ==> (#[trigger] self.entries@[h]).node.t_infect@.len() == 2
        &&& forall|h: int|
            0 <= h < self.entries@.len() && (#[trigger] self.entries@[h]).node.state == State::Infected
                ==> self.entries@[h].node.clocks_reach(self.t)
    }

    /// A run that starts at time 0 with one infected site at the origin;
    /// `lambda` is in millionths. Fails with `InvalidParameter` exactly when
    /// `lambda` is not strictly positive.
    pub fn new<S: ExpSource>(lambda: i64, src: &mut Recorder<S>) -> (r: Result<OrderedSimulation, SimError>)
        ensures
            r is Err <==> !params_valid(Topology::Line, lambda as int, 0),
            r matches Err(e) ==> e == SimError::InvalidParameter,
            r matches Ok(s) ==> {
                &&& s.wf()
                &&& rates_match(Topology::Line, lambda as int, 0, s.rates())
                &&& s.time() == 0
                &&& s.entries().len() == 1
                &&& s.entries()[0].v == 0
                &&& s.entries()[0].left is None
                &&& s.entries()[0].right is None
                &&& s.nodes()[0].state == State::Infected
                &&& s.nodes()[0].clocks_reach(0)
                &&& s.events() == 0
                &&& final(src).log().subrange(0, old(src).log().len() as int) == old(src).log()
                &&& final(src).log().len() == old(src).log().len() + s.nodes()[0].clocks().len()
                &&& forall|j: int| 0 <= j < s.nodes()[0].clocks().len() ==> {
                    let e = #[trigger] final(src).log()[old(src).log().len() + j];
                    e.0 == clock_rate(s.rates(), j) && s.nodes()[0].clocks()[j] == next_after(0, e.1)
                }
            },
    {
        let rates = match Topology::Line.rates(lambda, 0) {
            Ok(v) => v,
            Err(e) => {
                return Err(e);
            },
        };
        let start = Node::new(&rates, 0, src);
        let s = OrderedSimulation {
            rates,
            entries: vec![Entry { node: start, v: 0, left: None, right: None }],
            order: vec![0usize],
            t: 0,
            events: Ghost(0),
        };
        assert(s.order@[0] == 0);
        assert(s.order@.contains(0usize));
        assert(chain_ok(s.entries@)) by {
            reveal(links_ok);
        }
        assert(entry_nodes(s.entries@)[0] == start);
        Ok(s)
    }

    /// Whether `a` sorts before `b` in the index.
    fn key_less(&self, a: usize, b: usize) -> (r: bool)
        requires
            a < self.entries@.len(),
            b < self.entries@.len(),
        ensures
            r == key_lt(self.entries@, a as int, b as int),
    {
        let na = &self.entries[a].node;
        let nb = &self.entries[b].node;
        let ra: u8 = match na.state {
            State::Infected => 0,
            State::Healthy => 1,
        };
        let rb: u8 = match nb.state {
            State::Infected => 0,
            State::Healthy => 1,
        };
        if ra != rb {
            return ra < rb;
        }
        let ma = na.get_min();
        let mb = nb.get_min();
        if ma != mb {
            return ma < mb;
        }
        a < b
    }

    /// The scheduler's answer: the first handle of the index when its site
    /// is infected, else `None`.
    pub fn next_event(&self) -> (r: Option<usize>)
        requires
            self.wf(),
        ensures
            r matches Some(h) ==> is_next_event(self.nodes(), h as int),
            r is None <==> !has_infected(self.nodes()),
    {
        let h = self.order[0];
        let n = self.entries.len();
        let ghost es = self.entries@;
        let ghost ns = self.nodes();
        assert(ns.len() == es.len());
        assert forall|k: int| 0 <= k < es.len() implies #[trigger] ns[k] == es[k].node by {}
        proof {
            assert forall|k: int| 0 <= k < es.len() && k != h implies key_lt(es, h as int, k) by {
                assert(k < n);
                assert((k as usize) as int == k);
                assert(self.order@.contains(k as usize));
                let j = choose|j: int| 0 <= j < self.order@.len() && self.order@[j] == k as usize;
                assert(self.order@[j] < self.entries@.len());
                assert(self.order@[j] as int == k);
                if j == 0 {
                    assert(self.order@[0] == h);
                } else {
                    assert(key_lt(es, self.order@[0] as int, self.order@[j] as int));
                }
                assert(key_lt(es, h as int, k));
            }
        }
        if self.entries[h].node.state == State::Infected {
            assert forall|k: int|
                0 <= k < ns.len() && ns[k].state == State::Infected implies ns[h as int].min_clock()
                    <= #[trigger] ns[k].min_clock() && (k < h ==> ns[h as int].min_clock() < ns[k].min_clock()) by {
                assert(ns[k] == es[k].node);
                assert(ns[h as int] == es[h as int].node);
                if k != h {
                    assert(key_lt(es, h as int, k));
                }
            }
            assert(is_next_event(ns, h as int));
            Some(h)
        } else {
            proof {
                if has_infected(ns) {
                    let k = choose|k: int| 0 <= k < ns.len() && #[trigger] ns[k].state == State::Infected;
                    assert(key_lt(es, h as int, k));
                }
            }
            None
        }
    }

    /// Takes handle `h` out of the index.
    fn unlink(&mut self, h: usize)
        requires
            is_permutation(old(self).order@, old(self).entries@.len()),
            sorted_by_key(old(self).entries@, old(self).order@),
            h < old(self).entries@.len(),
        ensures
            final(self).entries@ == old(self).entries@,
            final(self).rates@ == old(self).rates@,
            final(self).t == old(self).t,
            is_permutation_without(final(self).order@, final(self).entries@.len(), h),
            sorted_by_key(final(self).entries@, final(self).order@),
    {
        let n = self.entries.len();
        let ghost o = self.order@;
        assert(o.contains((h as int) as usize));
        let ghost q = choose|q: int| 0 <= q < o.len() && o[q] == h;
        let mut lo: usize = 0;
        let mut hi: usize = self.order.len();
        let mut p: usize = 0;
        let mut found = false;
        while !found
            invariant
                self.order@ == o,
                n == self.entries@.len(),
                h < n,
                is_permutation(o, n as nat),
                sorted_by_key(self.entries@, o),
                0 <= q < o.len(),
                o[q] == h,
                found ==> p < o.len() && o[p as int] == h,
                !found ==> lo <= q < hi <= o.len(),
            decreases hi - lo + if found { 0int } else { 1int },
        {
            let mid = lo + (hi - lo) / 2;
            let g = self.order[mid];
            if g == h {
                p = mid;
                found = true;
            } else if self.key_less(g, h) {
                proof {
                    if q < mid {
                        assert(key_lt(self.entries@, o[q] as int, o[mid as int] as int));
                    }
                }
                lo = mid + 1;
            } else {
                proof {
                    if q > mid {
                        assert(key_lt(self.entries@, o[mid as int] as int, o[q] as int));
                    }
                }
                hi = mid;
            }
        }
        self.order.remove(p);
        let ghost o2 = self.order@;
        assert(o2 =~= o.subrange(0, p as int) + o.subrange(p + 1, o.len() as int));
        assert forall|i: int| 0 <= i < o2.len() implies #[trigger] o2[i] < n && o2[i] != h by {
            if i < p {
                assert(o2[i] == o[i]);
            } else {
                assert(o2[i] == o[i + 1]);
            }
        }
        assert forall|i: int, j: int| 0 <= i < j < o2.len() implies o2[i] != o2[j] by {
            let ii = if i < p { i } else { i + 1 };
            let jj = if j < p { j } else { j + 1 };
            assert(o2[i] == o[ii]);
            assert(o2[j] == o[jj]);
        }
        assert forall|g: int| 0 <= g < n && g != h implies #[trigger] o2.contains(g as usize) by {
            assert(o.contains(g as usize));
            let k = choose|k: int| 0 <= k < o.len() && o[k] == g as usize;
            if k < p {
                assert(o2[k] == o[k]);
            } else {
                assert(k != p);
                assert(o2[k - 1] == o[k]);
            }
        }
        assert forall|i: int, j: int| #![trigger o2[i], o2[j]] 0 <= i < j < o2.len() implies key_lt(self.entries@, o2[i] as int, o2[j] as int) by {
            let ii = if i < p { i } else { i + 1 };
            let jj = if j < p { j } else { j + 1 };
            assert(o2[i] == o[ii]);
            assert(o2[j] == o[jj]);
            assert(key_lt(self.entries@, o[ii] as int, o[jj] as int));
        }
    }

    /// Puts handle `h` back into the index at the place its key gives it.
    fn link(&mut self, h: usize)
        requires
            is_permutation_without(old(self).order@, old(self).entries@.len(), h),
            sorted_by_key(old(self).entries@, old(self).order@),
            h < old(self).entries@.len(),
        ensures
            final(self).entries@ == old(self).entries@,
            final(self).rates@ == old(self).rates@,
            final(self).t == old(self).t,
            is_permutation(final(self).order@, final(self).entries@.len()),
            sorted_by_key(final(self).entries@, final(self).order@),
    {
        let n = self.entries.len();
        let ghost o = self.order@;
        let ghost es = self.entries@;
        let mut lo: usize = 0;
        let mut hi: usize = self.order.len();
        while lo < hi
            invariant
                self.order@ == o,
                self.entries@ == es,
                n == es.len(),
                h < n,
                is_permutation_without(o, n as nat, h),
                sorted_by_key(es, o),
                lo <= hi <= o.len(),
                forall|k: int| 0 <= k < lo ==> key_lt(es, #[trigger] o[k] as int, h as int),
                forall|k: int| hi <= k < o.len() ==> key_lt(es, h as int, #[trigger] o[k] as int),
            decreases hi - lo,
        {
            let mid = lo + (hi - lo) / 2;
            let g = self.order[mid];
            if self.key_less(h, g) {
                assert forall|k: int| mid <= k < o.len() implies key_lt(es, h as int, #[trigger] o[k] as int) by {
                    if k > mid {
                        assert(key_lt(es, o[mid as int] as int, o[k] as int));
                    }
                }
                hi = mid;
            } else {
                assert(g != h);
                assert forall|k: int| 0 <= k <= mid implies key_lt(es, #[trigger] o[k] as int, h as int) by {
                    if k < mid {
                        assert(key_lt(es, o[k] as int, o[mid as int] as int));
                    }
                }
                lo = mid + 1;
            }
        }
        let p = lo;
        self.order.insert(p, h);
        let ghost o2 = self.order@;
        assert(o2 =~= o.subrange(0, p as int).push(h) + o.subrange(p as int, o.len() as int));
        assert forall|i: int| 0 <= i < o2.len() implies #[trigger] o2[i] < n by {
            if i < p {
                assert(o2[i] == o[i]);
            } else if i > p {
                assert(o2[i] == o[i - 1]);
            }
        }
        assert forall|i: int, j: int| 0 <= i < j < o2.len() implies o2[i] != o2[j] by {
            if i != p && j != p {
                let ii = if i < p { i } else { i - 1 };
                let jj = if j < p { j } else { j - 1 };
                assert(o2[i] == o[ii]);
                assert(o2[j] == o[jj]);
            } else if i == p {
                assert(o2[j] == o[j - 1]);
            } else {
                assert(o2[i] == o[i]);
            }
        }
        assert forall|g: int| 0 <= g < n implies #[trigger] o2.contains(g as usize) by {
            if g == h {
                assert(o2[p as int] == h);
            } else {
                assert(o.contains(g as usize));
                let k = choose|k: int| 0 <= k < o.len() && o[k] == g as usize;
                if k < p {
                    assert(o2[k] == o[k]);
                } else {
                    assert(o2[k + 1] == o[k]);
                }
            }
        }
        assert forall|i: int, j: int| #![trigger o2[i], o2[j]] 0 <= i < j < o2.len() implies key_lt(es, o2[i] as int, o2[j] as int) by {
            if i != p && j != p {
                let ii = if i < p { i } else { i - 1 };
                let jj = if j < p { j } else { j - 1 };
                assert(o2[i] == o[ii]);
                assert(o2[j] == o[jj]);
                assert(key_lt(es, o[ii] as int, o[jj] as int));
            } else if i == p {
                assert(o2[j] == o[j - 1]);
                assert(key_lt(es, h as int, o[p as int] as int));
                if j - 1 > p {
                    assert(key_lt(es, o[p as int] as int, o[j - 1] as int));
                }
            } else {
                assert(o2[i] == o[i]);
                assert(key_lt(es, o[i] as int, h as int));
            }
        }
    }

    /// While `g` is out of the index, its node may change freely: the rest of
    /// the index stays sorted and the links stay a chain.
    proof fn lemma_relocated(pre: Seq<Entry>, mid_order: Seq<usize>, post: Seq<Entry>, g: usize)
        requires
            is_permutation_without(mid_order, pre.len(), g),
            sorted_by_key(pre, mid_order),
            chain_ok(pre),
            post.len() == pre.len(),
            g < pre.len(),
            forall|k: int| 0 <= k < pre.len() && k != g ==> #[trigger] post[k] == pre[k],
            post[g as int].v == pre[g as int].v,
            post[g as int].left == pre[g as int].left,
            post[g as int].right == pre[g as int].right,
        ensures
            sorted_by_key(post, mid_order),
            chain_ok(post),
    {
        assert forall|i: int| 0 <= i < mid_order.len() implies #[trigger] pre[mid_order[i] as int].node == post[mid_order[i] as int].node by {
            assert(mid_order[i] != g);
        }
        lemma_sorted_frame(pre, post, mid_order);
        assert(link_view(pre) =~= link_view(post));
    }

    /// Reinfection of the site with handle `g` at the current time.
    fn reinfect<S: ExpSource>(&mut self, g: usize, src: &mut Recorder<S>)
        requires
            old(self).wf(),
            g < old(self).entries@.len(),
        ensures
            final(self).wf(),
            final(self).t == old(self).t,
            final(self).rates@ == old(self).rates@,
            final(self).entries@.len() == old(self).entries@.len(),
            forall|k: int| 0 <= k < old(self).entries@.len() && k != g ==> #[trigger] final(self).entries@[k] == old(self).entries@[k],
            final(self).entries@[g as int].node.state == State::Infected,
            final(self).entries@[g as int].v == old(self).entries@[g as int].v,
            final(self).entries@[g as int].node.clocks_after(&old(self).entries@[g as int].node),
            final(self).entries@[g as int].node.clocks_reach(old(self).t),
    {
        let ghost pre = self.entries@;
        self.unlink(g);
        let ghost mid = self.order@;
        self.entries[g].node.infect(&self.rates, self.t, src);
        proof {
            Self::lemma_relocated(pre, mid, self.entries@, g);
        }
        self.link(g);
        let ghost es = self.entries@;
        assert forall|h: int|
            0 <= h < es.len() && (#[trigger] es[h]).node.state == State::Infected implies es[h].node.clocks_reach(self.t) by {
            if h != g {
                assert(es[h] == pre[h]);
            }
        }
        assert forall|h: int| 0 <= h < es.len() implies (#[trigger] es[h]).node.t_infect@.len() == 2 by {
            if h != g {
                assert(es[h] == pre[h]);
            }
        }
    }

    /// Fires the first clock of the site with handle `g`.
    fn fire<S: ExpSource>(&mut self, g: usize, src: &mut Recorder<S>)
        requires
            old(self).wf(),
            g < old(self).entries@.len(),
        ensures
            final(self).wf(),
            final(self).t == old(self).t,
            final(self).rates@ == old(self).rates@,
            final(self).entries@.len() == old(self).entries@.len(),
            forall|k: int| 0 <= k < old(self).entries@.len() && k != g ==> #[trigger] final(self).entries@[k] == old(self).entries@[k],
            final(self).entries@[g as int].node.clocks_after(&old(self).entries@[g as int].node),
            final(self).entries@[g as int].v == old(self).entries@[g as int].v,
            final(self).entries@[g as int].left == old(self).entries@[g as int].left,
            final(self).entries@[g as int].right == old(self).entries@[g as int].right,
            forall|j: int| is_first_min(old(self).entries@[g as int].node.clocks(), j) ==> {
                let n0 = old(self).entries@[g as int].node;
                let n1 = final(self).entries@[g as int].node;
                &&& n1.clocks()[j] > n0.clocks()[j] || n1.clocks()[j] == u64::MAX
                &&& j == 0 ==> n1.state == State::Healthy && n1.clocks_reach(n0.clocks()[j])
                &&& j > 0 ==> n1.state == n0.state
                &&& j > 0 ==> (forall|k: int| 0 <= k < n1.clocks().len() && k != j
                    ==> #[trigger] n1.clocks()[k] == n0.clocks()[k])
                &&& final(src).log().last().0 == clock_rate(old(self).rates@, j)
                &&& n1.clocks()[j] == next_after(n0.clocks()[j], final(src).log().last().1)
            },
    {
        let ghost pre = self.entries@;
        self.unlink(g);
        let ghost mid = self.order@;
        self.entries[g].node.step(&self.rates, src);
        proof {
            Self::lemma_relocated(pre, mid, self.entries@, g);
        }
        self.link(g);
        let ghost es = self.entries@;
        assert forall|h: int|
            0 <= h < es.len() && (#[trigger] es[h]).node.state == State::Infected implies es[h].node.clocks_reach(self.t) by {
            if h != g {
                assert(es[h] == pre[h]);
            } else {
                let n0 = pre[h].node;
                let n1 = es[h].node;
                lemma_min_clock_below(n0);
                let j = first_min_index(n0.clocks());
                assert(n0.state == State::Infected) by {
                    if j == 0 {
                        assert(n1.state == State::Healthy);
                    }
                }
                assert forall|k: int| 0 <= k < n1.clocks().len() implies #[trigger] n1.clocks()[k] >= self.t by {
                    assert(n0.clocks()[k] >= self.t);
                    if k > 0 {
                        assert(n1.clocks()[k] == n1.t_infect@[k - 1]);
                        assert(n0.clocks()[k] == n0.t_infect@[k - 1]);
                    }
                }
            }
        }
        assert forall|h: int| 0 <= h < es.len() implies (#[trigger] es[h]).node.t_infect@.len() == 2 by {
            if h != g {
                assert(es[h] == pre[h]);
            }
        }
    }

    /// A new site at the current time beside the site with handle `h`, on its
    /// left (`to_left`) or its right, where `h` has no neighbour on that side;
    /// the two are linked to each other.
    fn spawn<S: ExpSource>(&mut self, h: usize, to_left: bool, src: &mut Recorder<S>)
        requires
            old(self).wf(),
            h < old(self).entries@.len(),
            old(self).entries@.len() < usize::MAX,
            to_left ==> old(self).entries@[h as int].left is None && old(self).entries@[h as int].v > i64::MIN,
            !to_left ==> old(self).entries@[h as int].right is None && old(self).entries@[h as int].v < i64::MAX,
        ensures
            final(self).wf(),
            final(self).t == old(self).t,
            final(self).rates@ == old(self).rates@,
            final(self).entries@.len() == old(self).entries@.len() + 1,
            forall|k: int| 0 <= k < old(self).entries@.len() ==> (#[trigger] final(self).entries@[k]).node == old(self).entries@[k].node,
            forall|k: int| 0 <= k < old(self).entries@.len() ==> (#[trigger] final(self).entries@[k]).v == old(self).entries@[k].v,
            final(self).entries@.last().node.state == State::Infected,
            final(self).entries@.last().v == if to_left { old(self).entries@[h as int].v - 1 } else { old(self).entries@[h as int].v + 1 },
            to_left ==> final(self).entries@.last().left is None && final(self).entries@.last().right == Some(h)
                && final(self).entries@[h as int].left == Some(old(self).entries@.len() as usize),
            !to_left ==> final(self).entries@.last().right is None && final(self).entries@.last().left == Some(h)
                && final(self).entries@[h as int].right == Some(old(self).entries@.len() as usize),
    {
        let ghost pre = self.entries@;
        let ghost ls = link_view(pre);
        let n = self.entries.len();
        let node = Node::new(&self.rates, self.t, src);
        let v = self.entries[h].v;
        if to_left {
            self.entries.push(Entry { node, v: v - 1, left: None, right: Some(h) });
            self.entries[h].left = Some(n);
            proof {
                lemma_links_push_left(ls, h as int);
                assert(link_view(self.entries@) =~= ls.update(h as int, (ls[h as int].0, Some(n), ls[h as int].2)).push(((ls[h as int].0 - 1) as i64, None, Some(h))));
            }
        } else {
            self.entries.push(Entry { node, v: v + 1, left: Some(h), right: None });
            self.entries[h].right = Some(n);
            proof {
                lemma_links_push_right(ls, h as int);
                assert(link_view(self.entries@) =~= ls.update(h as int, (ls[h as int].0, ls[h as int].1, Some(n))).push(((ls[h as int].0 + 1) as i64, Some(h), None)));
            }
        }
        let ghost es = self.entries@;
        assert forall|k: int| 0 <= k < n implies (#[trigger] es[k]).node == pre[k].node && es[k].v == pre[k].v by {}
        proof {
            let o = self.order@;
            assert forall|i: int| 0 <= i < o.len() implies #[trigger] o[i] < es.len() && o[i] != n by {}
            assert forall|g: int| 0 <= g < es.len() && g != n implies #[trigger] o.contains(g as usize) by {}
            assert(is_permutation_without(o, es.len(), n));
            assert forall|i: int| 0 <= i < o.len() implies #[trigger] pre[o[i] as int].node == es[o[i] as int].node by {}
            lemma_sorted_frame(pre, es, o);
        }
        self.link(n);
        let ghost es2 = self.entries@;
        assert forall|k: int|
            0 <= k < es2.len() && (#[trigger] es2[k]).node.state == State::Infected implies es2[k].node.clocks_reach(self.t) by {
            if k < n {
                assert(es2[k].node == pre[k].node);
            }
        }
        assert forall|k: int| 0 <= k < es2.len() implies (#[trigger] es2[k]).node.t_infect@.len() == 2 by {
            if k < n {
                assert(es2[k].node == pre[k].node);
            }
        }
    }

    /// Performs the next event, as [`crate::simulation::Simulation::step`]
    /// does: time jumps to the first clock of the first infected entry of the
    /// index, an infection reaches the left or right neighbour (created and
    /// linked when new), and the acting site fires its clock. Returns `false`,
    /// changing nothing, when no site is infected.
    #[verifier::rlimit(40)]
    pub fn step<S: ExpSource>(&mut self, src: &mut Recorder<S>) -> (r: bool)
        requires
            old(self).wf(),
        ensures
            final(self).wf(),
            final(self).rates() == old(self).rates(),
            r <==> has_infected(old(self).nodes()),
            r ==> exists|i: int| is_next_event(old(self).nodes(), i),
            !r ==> *final(self) == *old(self),
            final(self).time() >= old(self).time(),
            final(self).nodes().len() <= old(self).nodes().len() + 1,
            final(self).entries().len() >= old(self).entries().len(),
            forall|k: int| 0 <= k < old(self).entries().len() ==> #[trigger] final(self).entries()[k].v == old(self).entries()[k].v,
            r ==> final(self).events() == old(self).events() + 1,
            infected_reach(final(self).nodes(), final(self).time()),
            forall|i: int| is_next_event(old(self).nodes(), i) ==> line_event_done(old(self), final(self), i),
            forall|i: int| is_next_event(old(self).nodes(), i) ==> {
                let n = old(self).nodes()[i];
                let j = first_min_index(n.clocks());
                let e = final(src).log().last();
                &&& e.0 == clock_rate(old(self).rates(), j)
                &&& final(self).nodes()[i].clocks()[j] == next_after(n.clocks()[j], e.1)
            },
    {
        let h = match self.next_event() {
            Some(h) => h,
            None => {
                return false;
            },
        };
        let ghost pre = self.entries@;
        let ghost pre_self = *self;
        let ghost pre_t = self.t;
        assert(is_next_event(pre_self.nodes(), h as int));
        let m = self.entries[h].node.get_min();
        let p = self.entries[h].node.get_min_state();
        proof {
            let ns = entry_nodes(pre);
            let n0 = pre[h as int].node;
            assert(ns[h as int] == n0);
            assert(n0.clocks_reach(pre_t));
            lemma_min_clock_below(n0);
            assert(n0.clocks()[first_min_index(n0.clocks())] >= pre_t);
            assert forall|a: int|
                0 <= a < pre.len() && (#[trigger] pre[a]).node.state == State::Infected
                    implies pre[a].node.clocks_reach(m) by {
                assert(ns[a] == pre[a].node);
                assert(m <= ns[a].min_clock());
                lemma_min_clock_below(pre[a].node);
            }
        }
        self.t = m;
        let len = self.entries.len();
        let ghost j = first_min_index(pre[h as int].node.clocks());
        let ghost tv = line_target(pre[h as int].v, j);
        assert(j == progress_index(p));
        match p {
            InfectProgress::Infect(d) => {
                let v = self.entries[h].v;
                let link = if d == 0 { self.entries[h].left } else { self.entries[h].right };
                proof {
                    reveal(links_ok);
                    let ls = link_view(pre);
                    assert(ls[h as int] == (pre[h as int].v, pre[h as int].left, pre[h as int].right));
                    assert forall|g: int| 0 <= g < pre.len() implies #[trigger] ls[g].0 == pre[g].v by {}
                }
                match link {
                    Some(g) => {
                        proof {
                            let ls = link_view(pre);
                            assert(ls[g as int] == (pre[g as int].v, pre[g as int].left, pre[g as int].right));
                        }
                        assert(pre[g as int].v == tv);
                        self.reinfect(g, src);
                        assert(self.entries@[g as int].v == tv);
                    },
                    None => {
                        let room = len < usize::MAX && if d == 0 { v > i64::MIN } else { v < i64::MAX };
                        if room {
                            self.spawn(h, d == 0, src);
                            assert(self.entries@[len as int].node.clocks_reach(m));
                            assert(self.entries@[len as int] == self.entries@.last());
                        } else {
                            proof {
                                reveal(links_ok);
                                let ls = link_view(pre);
                                assert(ls[h as int] == (pre[h as int].v, pre[h as int].left, pre[h as int].right));
                                assert(j == d + 1);
                                assert forall|g: int| 0 <= g < pre.len() implies pre[g].v != tv by {
                                    assert(ls[g] == (pre[g].v, pre[g].left, pre[g].right));
                                }
                            }
                        }
                    },
                }
            },
            InfectProgress::Heal => {},
        }
        assert(target_reached(pre, self.entries@, h as int, j, tv, m));
        let ghost mid = self.entries@;
        assert(mid[h as int].node == pre[h as int].node);
        self.fire(h, src);
        proof {
            let i = h as int;
            let n0 = pre[i].node;
            assert(entry_nodes(pre)[i] == n0);
            assert(entry_nodes(self.entries@)[i] == self.entries@[i].node);
            lemma_min_clock_below(n0);
            assert forall|i2: int| is_next_event(entry_nodes(pre), i2) implies i2 == i by {
                crate::simulation::lemma_next_event_unique(entry_nodes(pre), i2, i);
            }
        }
        self.events = Ghost(pre_self.events@ + 1);
        proof {
            let i = h as int;
            let n0 = pre[i].node;
            lemma_min_clock_below(n0);
            let jj = first_min_index(n0.clocks());
            assert(self.nodes()[i] == self.entries@[i].node);
            assert(pre_self.nodes()[i] == n0);
            assert(src.log().last().0 == clock_rate(self.rates@, jj));
            assert(self.nodes()[i].clocks()[jj] == next_after(n0.clocks()[jj], src.log().last().1));
            let post = *self;
            let pn = pre_self.nodes();
            let fnodes = post.nodes();
            assert(pn[i] == pre[i].node);
            assert(fnodes[i] == self.entries@[i].node);
            assert(pre_self.entries()[i].v == pre[i].v);
            assert(line_event_done(&pre_self, &post, i)) by {
                reveal(line_event_done);
                assert(pre_self.entries() == pre);
                assert forall|k: int| 0 <= k < mid.len() && k != i implies #[trigger] post.entries()[k] == mid[k] by {}
                assert forall|k: int| 0 <= k < pn.len() implies #[trigger] pn[k] == pre[k].node by {}
                assert forall|k: int| 0 <= k < fnodes.len() implies #[trigger] fnodes[k] == post.entries()[k].node by {}
                if j > 0 && ((exists|g: int| 0 <= g < pre.len() && pre[g].v == tv) || (i64::MIN <= tv <= i64::MAX && pre.len() < usize::MAX)) {
                    let k = choose|k: int|
                        0 <= k < mid.len() && mid[k].v == tv && mid[k].node.state == State::Infected
                            && mid[k].node.clocks_reach(m);
                    assert(k != i);
                    assert(0 <= k < post.entries().len() && post.entries()[k].v == tv
                        && post.nodes()[k].state == State::Infected
                        && post.nodes()[k].clocks_reach(post.time()));
                }
                if post.entries().len() == pre.len() + 1 {
                    assert(post.entries()[pre.len() as int] == mid[pre.len() as int]);
                }
            }
        }
        true
    }

    /// Runs events while the time is below `horizon`, as
    /// [`crate::simulation::Simulation::run`] does. Returns `true` exactly when
    /// the epidemic died out before `horizon`; a horizon at or below the
    /// current time performs no event. At most `u64::MAX` events are
    /// performed in one call.
    #[verifier::rlimit(60)]
    pub fn run<S: ExpSource>(&mut self, horizon: u64, src: &mut Recorder<S>) -> (r: bool)
        requires
            old(self).wf(),
        ensures
            final(self).wf(),
            final(self).rates() == old(self).rates(),
            r <==> final(self).time() < horizon && !has_infected(final(self).nodes()),
            r ==> count_infected(final(self).nodes()) == 0,
            !r ==> final(self).time() >= horizon || final(self).events() >= old(self).events() + u64::MAX,
            old(self).time() < horizon && !has_infected(old(self).nodes()) ==> r && *final(self) == *old(self),
            horizon <= old(self).time() ==> *final(self) == *old(self) && final(src).log() == old(src).log(),
            final(self).time() >= old(self).time(),
            final(self).events() >= old(self).events(),
            final(self).entries().len() >= old(self).entries().len(),
            forall|k: int| 0 <= k < old(self).entries().len() ==> #[trigger] final(self).entries()[k].v == old(self).entries()[k].v,
            infected_reach(final(self).nodes(), final(self).time()),
            line_run_path(*old(self), *final(self), horizon, (final(self).events() - old(self).events()) as nat),
    {
        proof {
            lemma_line_run_path_empty(*self, horizon);
        }
        if horizon <= self.t {
            return false;
        }
        let mut budget: u64 = u64::MAX;
        while self.t < horizon
            invariant
                self.wf(),
                self.rates@ == old(self).rates@,
                self.t >= old(self).t,
                self.events@ >= old(self).events@ + (u64::MAX - budget),
                self.entries@.len() >= old(self).entries@.len(),
                forall|k: int| 0 <= k < old(self).entries@.len() ==> #[trigger] self.entries@[k].v == old(self).entries@[k].v,
                !has_infected(entry_nodes(old(self).entries@)) ==> *self == *old(self),
                line_run_path(*old(self), *self, horizon, (self.events@ - old(self).events@) as nat),
            decreases budget,
        {
            if budget == 0 {
                let done = self.next_event().is_none();
                proof {
                    lemma_count_zero(self.nodes());
                }
                return done;
            }
            let ghost before = *self;
            if !self.step(src) {
                proof {
                    lemma_count_zero(self.nodes());
                }
                return true;
            }
            proof {
                assert forall|k: int| 0 <= k < old(self).entries@.len() implies #[trigger] self.entries@[k].v == old(self).entries@[k].v by {
                    assert(before.entries@[k].v == old(self).entries@[k].v);
                }
                let i = choose|i: int| is_next_event(before.nodes(), i);
                let post = *self;
                assert(line_event_done(&before, &post, i));
                let kk = (self.events@ - old(self).events@) as nat;
                assert((kk - 1) as nat == (before.events@ - old(self).events@) as nat);
                lemma_line_run_path_extend(*old(self), before, post, horizon, (kk - 1) as nat, i);
            }
            budget = budget - 1;
        }
        false
    }

    /// The number of infected sites.
    pub fn get_number_of_infected_nodes(&self) -> (r: usize)
        ensures
            r == count_infected(self.nodes()),
    {
        let ghost ns = self.nodes();
        let mut count: usize = 0;
        let mut i: usize = 0;
        while i < self.entries.len()
            invariant
                ns == entry_nodes(self.entries@),
                i <= self.entries@.len(),
                count <= i,
                count == count_infected(ns.subrange(0, i as int)),
            decreases self.entries@.len() - i,
        {
            assert(ns.subrange(0, i + 1).drop_last() =~= ns.subrange(0, i as int));
            assert(ns[i as int] == self.entries@[i as int].node);
            if self.entries[i].node.state == State::Infected {
                count = count + 1;
            }
            i = i + 1;
        }
        assert(ns.subrange(0, i as int) =~= ns);
        count
    }

    /// The time of the last event.
    pub fn time_now(&self) -> (r: u64)
        ensures
            r == self.time(),
    {
        self.t
    }

    /// The number of sites ever infected.
    pub fn site_count(&self) -> (r: usize)
        ensures
            r == self.nodes().len(),
    {
        self.entries.len()
    }

    /// The entry with handle `h`, if there is one.
    pub fn entry(&self, h: usize) -> (r: Option<&Entry>)
        ensures
            r matches Some(e) ==> h < self.entries().len() && *e == self.entries()[h as int],
            r is None <==> h >= self.entries().len(),
    {
        if h < self.entries.len() {
            Some(&self.entries[h])
        } else {
            None
        }
    }

    /// The neighbour chain of a well-formed run: from any entry, following
    /// the left link and then the right link returns to the entry, and so does
    /// following the right link and then the left link; no two entries share a
    /// coordinate. Every public operation keeps the run well formed, so this
    /// holds after any sequence of events.
    pub proof fn lemma_chain_round_trip(&self)
        requires
            self.wf(),
        ensures
            chain_round_trips(link_view(self.entries())),
    {
        lemma_links_round_trip(link_view(self.entries@));
    }
}

/// Over the same sites, the ordered index and the linear scan pick the same
/// next event: the same site, hence the same time and the same clock.
pub proof fn lemma_schedulers_agree(lin: &Simulation, ord: &OrderedSimulation, i: int, j: int)
    requires
        lin.nodes() == ord.nodes(),
        is_next_event(lin.nodes(), i),
        is_next_event(ord.nodes(), j),
    ensures
        i == j,
        lin.nodes()[i].min_clock() == ord.nodes()[j].min_clock(),
        first_min_index(lin.nodes()[i].clocks()) == first_min_index(ord.nodes()[j].clocks()),
{
    crate::simulation::lemma_next_event_unique(lin.nodes(), i, j);
}

} // verus!
