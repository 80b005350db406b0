use contact_process::clock::{Recorder, ExpSource, Rate, ScriptedSource, SimError};
use contact_process::node::State;
use contact_process::ordered::OrderedSimulation;
use contact_process::simulation::{create_sim, run_once, run_replicas, ReplicaTally, RunOutcome, Simulation};
use contact_process::topology::{Coord, SimAlphaType, Topology, PARAM_SCALE};
use rand::rngs::StdRng;
use rand::SeedableRng;
use rand_distr::{Distribution, Exp};

const TICKS: f64 = 1000.0;

/// Exponential draws from a seeded generator, in thousandths of a time unit.
struct SeededSource {
    rng: StdRng,
}

impl SeededSource {
    fn new(seed: u64) -> Self {
        SeededSource { rng: StdRng::seed_from_u64(seed) }
    }
}

impl ExpSource for SeededSource {
    fn draw(&mut self, rate: Rate) -> u64 {
        let lambda = rate.num as f64 / rate.den as f64;
        let x: f64 = Exp::new(lambda).unwrap().sample(&mut self.rng);
        (x * TICKS).ceil() as u64
    }
}

fn all_clocks(sim: &Simulation, coords: &[Coord]) -> Vec<(u64, Vec<u64>, bool)> {
    coords
        .iter()
        .map(|c| {
            let n = sim.site(*c).unwrap();
            (n.t_heal, n.t_infect.clone(), n.state == State::Infected)
        })
        .collect()
}

#[test]
fn nonpositive_rate_is_rejected_at_construction() {
    let mut src = Recorder::new(ScriptedSource::new(vec![1]));
    assert!(matches!(Simulation::new(Topology::Line, 0, 0, &mut src), Err(SimError::InvalidParameter)));
    assert!(matches!(Simulation::new(Topology::Line, -PARAM_SCALE, 0, &mut src), Err(SimError::InvalidParameter)));
    assert!(matches!(OrderedSimulation::new(0, &mut src), Err(SimError::InvalidParameter)));
    assert!(matches!(create_sim(SimAlphaType::OneDB, -1, 500_000, &mut src), Err(SimError::InvalidParameter)));
}

#[test]
fn grid_with_alpha_one_is_rejected() {
    let mut src = Recorder::new(ScriptedSource::new(vec![1]));
    assert!(matches!(
        Simulation::new(Topology::Grid, PARAM_SCALE, PARAM_SCALE, &mut src),
        Err(SimError::InvalidParameter)
    ));
    assert!(matches!(create_sim(SimAlphaType::TwoD, PARAM_SCALE, PARAM_SCALE, &mut src), Err(SimError::InvalidParameter)));
}

#[test]
fn lambda_zero_is_rejected() {
    let mut src = Recorder::new(ScriptedSource::new(vec![1]));
    assert!(matches!(Simulation::new(Topology::Line, 0, 0, &mut src), Err(SimError::InvalidParameter)));
}

#[test]
fn new_run_has_one_infected_site_at_origin() {
    let mut src = Recorder::new(ScriptedSource::new(vec![3, 5, 7]));
    let sim = Simulation::new(Topology::Line, PARAM_SCALE, 0, &mut src).unwrap();
    assert_eq!(sim.time_now(), 0);
    assert_eq!(sim.site_count(), 1);
    assert_eq!(sim.get_number_of_infected_nodes(), 1);
    let n = sim.site(Coord { x: 0, y: 0 }).unwrap();
    assert_eq!(n.t_heal, 3);
    assert_eq!(n.t_infect, vec![5, 7]);
    assert!(sim.site(Coord { x: 1, y: 0 }).is_none());
}

#[test]
fn zero_horizon_performs_no_event() {
    let mut src = Recorder::new(SeededSource::new(7));
    let mut sim = Simulation::new(Topology::Line, 2 * PARAM_SCALE, 0, &mut src).unwrap();
    assert!(!sim.run(0, &mut src));
    assert_eq!(sim.time_now(), 0);
    assert_eq!(sim.site_count(), 1);
    assert_eq!(sim.get_number_of_infected_nodes(), 1);
    let mut ord = OrderedSimulation::new(2 * PARAM_SCALE, &mut src).unwrap();
    assert!(!ord.run(0, &mut src));
    assert_eq!(ord.time_now(), 0);
    assert_eq!(ord.site_count(), 1);
}

#[test]
fn recovery_first_dies_out() {
    // recovery at 1, both infections at 100: the only site heals first
    let mut src = Recorder::new(ScriptedSource::new(vec![1, 100, 100]));
    let mut sim = Simulation::new(Topology::Line, 1, 0, &mut src).unwrap();
    assert!(sim.run(1_000_000, &mut src));
    assert_eq!(sim.get_number_of_infected_nodes(), 0);
    assert_eq!(sim.time_now(), 1);
    assert_eq!(sim.site_count(), 1);
}

#[test]
fn scripted_infection_creates_neighbor() {
    // origin: heal 10, left 2, right 20; the left infection fires at 2
    let mut src = Recorder::new(ScriptedSource::new(vec![10, 2, 20, 30, 40, 50, 6]));
    let mut sim = Simulation::new(Topology::Line, PARAM_SCALE, 0, &mut src).unwrap();
    assert!(sim.step(&mut src));
    assert_eq!(sim.time_now(), 2);
    assert_eq!(sim.site_count(), 2);
    let left = sim.site(Coord { x: -1, y: 0 }).unwrap();
    assert_eq!(left.t_heal, 32);
    assert_eq!(left.t_infect, vec![42, 52]);
    let origin = sim.site(Coord { x: 0, y: 0 }).unwrap();
    assert_eq!(origin.t_infect, vec![8, 20]);
    assert_eq!(sim.get_number_of_infected_nodes(), 2);
}

#[test]
fn stepping_without_infected_sites_changes_nothing() {
    let mut src = Recorder::new(ScriptedSource::new(vec![1, 100, 100]));
    let mut sim = Simulation::new(Topology::Line, 1, 0, &mut src).unwrap();
    assert!(sim.step(&mut src));
    assert!(!sim.step(&mut src));
    assert_eq!(sim.time_now(), 1);
    assert_eq!(sim.next_event(), None);
}

#[test]
fn supercritical_runs_rarely_die_out() {
    let mut extinct = 0;
    let replicas = 40;
    for seed in 0..replicas {
        let mut src = Recorder::new(SeededSource::new(seed));
        let mut sim = Simulation::new(Topology::Line, 8 * PARAM_SCALE, 0, &mut src).unwrap();
        if sim.run(3_000, &mut src) {
            extinct += 1;
        }
    }
    assert!(extinct * 5 <= replicas, "extinct in {} of {}", extinct, replicas);
}

#[test]
fn subcritical_runs_die_out() {
    let mut extinct = 0;
    for seed in 0..20 {
        let mut src = Recorder::new(SeededSource::new(seed));
        let mut sim = Simulation::new(Topology::Line, PARAM_SCALE / 10, 0, &mut src).unwrap();
        if sim.run(1_000_000, &mut src) {
            extinct += 1;
            assert_eq!(sim.get_number_of_infected_nodes(), 0);
        }
    }
    assert_eq!(extinct, 20);
}

#[test]
fn same_seed_reproduces_the_run() {
    for topology in [Topology::Line, Topology::LineExtended, Topology::Grid] {
        let mut a_src = Recorder::new(SeededSource::new(42));
        let mut b_src = Recorder::new(SeededSource::new(42));
        let mut a = Simulation::new(topology, 2 * PARAM_SCALE, 700_000, &mut a_src).unwrap();
        let mut b = Simulation::new(topology, 2 * PARAM_SCALE, 700_000, &mut b_src).unwrap();
        let mut coords = vec![Coord { x: 0, y: 0 }];
        for _ in 0..300 {
            let ra = a.step(&mut a_src);
            let rb = b.step(&mut b_src);
            assert_eq!(ra, rb);
            assert_eq!(a.time_now(), b.time_now());
            assert_eq!(a.site_count(), b.site_count());
            for dx in -6..=6 {
                for dy in -6..=6 {
                    let c = Coord { x: dx, y: dy };
                    assert_eq!(a.site(c).is_some(), b.site(c).is_some());
                    if a.site(c).is_some() && !coords.contains(&c) {
                        coords.push(c);
                    }
                }
            }
            assert_eq!(all_clocks(&a, &coords), all_clocks(&b, &coords));
        }
        assert_eq!(a.run(2_000, &mut a_src), b.run(2_000, &mut b_src));
        assert_eq!(a.get_number_of_infected_nodes(), b.get_number_of_infected_nodes());
    }
}

#[test]
fn ordered_and_linear_schedulers_agree() {
    for seed in 0..5 {
        let mut lin_src = Recorder::new(SeededSource::new(seed));
        let mut ord_src = Recorder::new(SeededSource::new(seed));
        let mut lin = Simulation::new(Topology::Line, 2 * PARAM_SCALE, 0, &mut lin_src).unwrap();
        let mut ord = OrderedSimulation::new(2 * PARAM_SCALE, &mut ord_src).unwrap();
        for _ in 0..500 {
            let a = lin.step(&mut lin_src);
            let b = ord.step(&mut ord_src);
            assert_eq!(a, b);
            assert_eq!(lin.time_now(), ord.time_now());
            assert_eq!(lin.site_count(), ord.site_count());
            assert_eq!(lin.get_number_of_infected_nodes(), ord.get_number_of_infected_nodes());
            for h in 0..ord.site_count() {
                let e = ord.entry(h).unwrap();
                let n = lin.site(Coord { x: e.v, y: 0 }).unwrap();
                assert_eq!(n.t_heal, e.node.t_heal);
                assert_eq!(n.t_infect, e.node.t_infect);
                assert_eq!(n.state, e.node.state);
            }
            if !a {
                break;
            }
        }
    }
}

#[test]
fn ordered_neighbor_links_round_trip() {
    let mut src = Recorder::new(SeededSource::new(3));
    let mut ord = OrderedSimulation::new(3 * PARAM_SCALE, &mut src).unwrap();
    for _ in 0..400 {
        ord.step(&mut src);
        for h in 0..ord.site_count() {
            let e = ord.entry(h).unwrap();
            if let Some(l) = e.left {
                let le = ord.entry(l).unwrap();
                assert_eq!(le.right, Some(h));
                assert_eq!(le.v, e.v - 1);
            }
            if let Some(r) = e.right {
                let re = ord.entry(r).unwrap();
                assert_eq!(re.left, Some(h));
                assert_eq!(re.v, e.v + 1);
            }
        }
    }
    assert!(ord.entry(ord.site_count()).is_none());
}

#[test]
fn ordered_next_event_is_earliest_infected() {
    let mut src = Recorder::new(SeededSource::new(11));
    let mut ord = OrderedSimulation::new(2 * PARAM_SCALE, &mut src).unwrap();
    for _ in 0..100 {
        if let Some(h) = ord.next_event() {
            let best = ord.entry(h).unwrap().node.get_min();
            for g in 0..ord.site_count() {
                let e = ord.entry(g).unwrap();
                if e.node.state == State::Infected {
                    assert!(best <= e.node.get_min());
                }
            }
        }
        ord.step(&mut src);
    }
}

#[test]
fn create_sim_builds_split_topologies() {
    let mut src = Recorder::new(SeededSource::new(5));
    let mut sim = create_sim(SimAlphaType::TwoD, 2 * PARAM_SCALE, 500_000, &mut src).unwrap();
    sim.run(500, &mut src);
    assert!(sim.time_now() >= 500 || sim.get_number_of_infected_nodes() == 0);
    let mut sim = create_sim(SimAlphaType::OneDB, 2 * PARAM_SCALE, 900_000, &mut src).unwrap();
    let done = sim.run(500, &mut src);
    assert_eq!(done, sim.get_number_of_infected_nodes() == 0 && sim.time_now() < 500);
}

#[test]
fn replicas_with_zero_horizon_keep_their_first_site() {
    let mut src = Recorder::new(SeededSource::new(1));
    let t = run_replicas(Topology::Grid, PARAM_SCALE, 500_000, 0, 7, &mut src).unwrap();
    assert_eq!(t.extinct, 0);
    assert_eq!(t.end_infected_sum, 7);
}

#[test]
fn replicas_that_heal_first_all_die_out() {
    let mut src = Recorder::new(ScriptedSource::new(vec![1, 100, 100]));
    let t = run_replicas(Topology::Line, PARAM_SCALE, 0, 1_000, 4, &mut src).unwrap();
    assert_eq!(t.extinct, 4);
    assert_eq!(t.end_infected_sum, 0);
}

#[test]
fn replicas_reject_invalid_parameters() {
    let mut src = Recorder::new(ScriptedSource::new(vec![1]));
    assert_eq!(
        run_replicas(Topology::LineExtended, PARAM_SCALE, PARAM_SCALE, 10, 3, &mut src),
        Err(SimError::InvalidParameter)
    );
}

#[test]
fn grid_infection_goes_up() {
    // origin: heal 10, left 9, right 8, up 1, down 7
    let mut src = Recorder::new(ScriptedSource::new(vec![10, 9, 8, 1, 7, 20, 21, 22, 23, 24, 5]));
    let mut sim = Simulation::new(Topology::Grid, PARAM_SCALE, 500_000, &mut src).unwrap();
    assert!(sim.step(&mut src));
    assert_eq!(sim.time_now(), 1);
    let up = sim.site(Coord { x: 0, y: 1 }).unwrap();
    assert_eq!(up.t_heal, 21);
    assert_eq!(up.t_infect, vec![22, 23, 24, 25]);
    let origin = sim.site(Coord { x: 0, y: 0 }).unwrap();
    assert_eq!(origin.t_infect, vec![9, 8, 6, 7]);
}

#[test]
fn extended_line_infects_two_away() {
    // origin: heal 10, left 9, right 8, two-left 7, two-right 1
    let mut src = Recorder::new(ScriptedSource::new(vec![10, 9, 8, 7, 1, 30, 31, 32, 33, 34, 2]));
    let mut sim = Simulation::new(Topology::LineExtended, PARAM_SCALE, 500_000, &mut src).unwrap();
    assert!(sim.step(&mut src));
    assert!(sim.site(Coord { x: 2, y: 0 }).is_some());
    assert!(sim.site(Coord { x: 1, y: 0 }).is_none());
    assert_eq!(sim.site(Coord { x: 0, y: 0 }).unwrap().t_infect, vec![9, 8, 7, 3]);
}

#[test]
fn reinfection_of_healed_neighbor() {
    // origin (heal 100, left 1, right 100); the new left site (heal 2, left 50, right 50)
    // heals at 2, then the origin's left clock (3) reinfects it
    let mut src = Recorder::new(ScriptedSource::new(vec![100, 1, 100, 1, 49, 48, 2, 10]));
    let mut lin = Simulation::new(Topology::Line, PARAM_SCALE, 0, &mut src).unwrap();
    assert!(lin.step(&mut src));
    assert_eq!(lin.time_now(), 1);
    assert!(lin.step(&mut src));
    assert_eq!(lin.time_now(), 2);
    assert_eq!(lin.site(Coord { x: -1, y: 0 }).unwrap().state, State::Healthy);
    assert!(lin.step(&mut src));
    assert_eq!(lin.time_now(), 3);
    assert_eq!(lin.site(Coord { x: -1, y: 0 }).unwrap().state, State::Infected);
    assert_eq!(lin.site_count(), 2);
    assert_eq!(lin.get_number_of_infected_nodes(), 2);
}

#[test]
fn ordered_recovery_first_dies_out() {
    let mut src = Recorder::new(ScriptedSource::new(vec![1, 100, 100]));
    let mut ord = OrderedSimulation::new(1, &mut src).unwrap();
    assert!(ord.run(1_000_000, &mut src));
    assert_eq!(ord.get_number_of_infected_nodes(), 0);
    assert_eq!(ord.time_now(), 1);
    assert_eq!(ord.next_event(), None);
}

#[test]
fn ordered_reinfection_keeps_links() {
    // same script as the linear reinfection case: the left site heals, then is reinfected
    let mut src = Recorder::new(ScriptedSource::new(vec![100, 1, 100, 1, 49, 48, 2, 10]));
    let mut ord = OrderedSimulation::new(PARAM_SCALE, &mut src).unwrap();
    assert!(ord.step(&mut src));
    assert!(ord.step(&mut src));
    assert_eq!(ord.entry(1).unwrap().node.state, State::Healthy);
    assert!(ord.step(&mut src));
    assert_eq!(ord.time_now(), 3);
    let origin = ord.entry(0).unwrap();
    let left = ord.entry(1).unwrap();
    assert_eq!(left.node.state, State::Infected);
    assert_eq!(left.v, -1);
    assert_eq!(origin.left, Some(1));
    assert_eq!(left.right, Some(0));
    assert_eq!(origin.right, None);
    assert_eq!(left.left, None);
    assert_eq!(ord.get_number_of_infected_nodes(), 2);
}

#[test]
fn tally_records_each_outcome() {

    let t = ReplicaTally { extinct: 2, end_infected_sum: 10 };
    let t = t.record(RunOutcome { extinct: true, left: 0 });
    assert_eq!(t, ReplicaTally { extinct: 3, end_infected_sum: 10 });
    let t = t.record(RunOutcome { extinct: false, left: 5 });
    assert_eq!(t, ReplicaTally { extinct: 3, end_infected_sum: 15 });
}

#[test]
fn single_run_with_zero_horizon_keeps_first_site() {

    let mut src = Recorder::new(ScriptedSource::new(vec![2]));
    let o = run_once(Topology::Line, PARAM_SCALE, 0, 0, &mut src).unwrap();
    assert!(!o.extinct);
    assert_eq!(o.left, 1);
}
