use contact_process::clock::{Recorder, advance_forward, next_arrival, Rate, ScriptedSource, SimError};
use contact_process::node::{InfectProgress, Node, State};
use contact_process::topology::{Coord, SimAlphaType, Topology, PARAM_SCALE};

fn unit_rate() -> Rate {
    Rate { num: 1, den: 1 }
}

#[test]
fn advance_forward_stops_at_first_value_past_boundary() {
    let mut src = Recorder::new(ScriptedSource::new(vec![3]));
    assert_eq!(advance_forward(0, unit_rate(), 10, &mut src), 12);
    let mut src = Recorder::new(ScriptedSource::new(vec![3]));
    assert_eq!(advance_forward(0, unit_rate(), 9, &mut src), 9);
}

#[test]
fn advance_forward_keeps_value_already_past_boundary() {
    let mut src = Recorder::new(ScriptedSource::new(vec![5]));
    assert_eq!(advance_forward(20, unit_rate(), 10, &mut src), 20);
    assert_eq!(advance_forward(10, unit_rate(), 10, &mut src), 10);
}

#[test]
fn advance_forward_with_larger_boundary_never_decreases() {
    let mut src = Recorder::new(ScriptedSource::new(vec![4, 1, 7]));
    let first = advance_forward(0, unit_rate(), 6, &mut src);
    assert!(first >= 6);
    let second = advance_forward(first, unit_rate(), 15, &mut src);
    assert!(second >= first);
    assert!(second >= 15);
    let third = advance_forward(second, unit_rate(), 3, &mut src);
    assert_eq!(third, second);
}

#[test]
fn zero_draw_counts_as_one_tick() {
    let mut src = Recorder::new(ScriptedSource::new(vec![0]));
    assert_eq!(advance_forward(0, unit_rate(), 3, &mut src), 3);
    assert_eq!(next_arrival(7, unit_rate(), &mut src), 8);
}

#[test]
fn next_arrival_saturates() {
    let mut src = Recorder::new(ScriptedSource::new(vec![10]));
    assert_eq!(next_arrival(u64::MAX - 3, unit_rate(), &mut src), u64::MAX);
}

#[test]
fn empty_script_replays_one() {
    let mut src = ScriptedSource::new(vec![]);
    assert_eq!(src.next_draw(), 1);
    assert_eq!(src.next_draw(), 1);
}

#[test]
fn script_is_replayed_cyclically() {
    let mut src = ScriptedSource::new(vec![2, 5]);
    assert_eq!(src.next_draw(), 2);
    assert_eq!(src.next_draw(), 5);
    assert_eq!(src.next_draw(), 2);
}

#[test]
fn line_rates_use_lambda() {
    let r = Topology::Line.rates(1_500_000, 0).unwrap();
    assert_eq!(r.len(), 2);
    assert_eq!(r[0], Rate { num: 1_500_000, den: 1_000_000 });
    assert_eq!(r[1], r[0]);
}

#[test]
fn split_rates_use_alpha() {
    let r = Topology::LineExtended.rates(2 * PARAM_SCALE, 900_000).unwrap();
    assert_eq!(r.len(), 4);
    assert_eq!(r[0].num, 2_000_000u128 * 900_000);
    assert_eq!(r[2].num, 2_000_000u128 * 100_000);
    assert_eq!(r[3].den, 1_000_000_000_000);
    let g = Topology::Grid.rates(PARAM_SCALE, 500_000).unwrap();
    assert_eq!(g[0].num, g[2].num);
}

#[test]
fn nonpositive_lambda_is_rejected() {
    assert_eq!(Topology::Line.rates(0, 0), Err(SimError::InvalidParameter));
    assert_eq!(Topology::Line.rates(-5, 0), Err(SimError::InvalidParameter));
    assert_eq!(Topology::LineExtended.rates(0, 500_000), Err(SimError::InvalidParameter));
    assert_eq!(Topology::Grid.rates(-1, -1), Err(SimError::InvalidParameter));
}

#[test]
fn alpha_outside_open_unit_interval_is_rejected() {
    assert_eq!(Topology::Grid.rates(PARAM_SCALE, PARAM_SCALE), Err(SimError::InvalidParameter));
    assert_eq!(Topology::Grid.rates(PARAM_SCALE, 0), Err(SimError::InvalidParameter));
    assert_eq!(Topology::LineExtended.rates(PARAM_SCALE, 2 * PARAM_SCALE), Err(SimError::InvalidParameter));
    assert!(Topology::Grid.rates(PARAM_SCALE, PARAM_SCALE - 1).is_ok());
}

#[test]
fn neighbors_follow_declaration_order() {
    let c = Coord { x: 3, y: -2 };
    assert_eq!(Topology::Line.direction_count(), 2);
    assert_eq!(Topology::Grid.direction_count(), 4);
    assert_eq!(Topology::Line.neighbor(c, 0), Some(Coord { x: 2, y: -2 }));
    assert_eq!(Topology::Line.neighbor(c, 1), Some(Coord { x: 4, y: -2 }));
    assert_eq!(Topology::LineExtended.neighbor(c, 2), Some(Coord { x: 1, y: -2 }));
    assert_eq!(Topology::LineExtended.neighbor(c, 3), Some(Coord { x: 5, y: -2 }));
    assert_eq!(Topology::Grid.neighbor(c, 2), Some(Coord { x: 3, y: -1 }));
    assert_eq!(Topology::Grid.neighbor(c, 3), Some(Coord { x: 3, y: -3 }));
}

#[test]
fn neighbor_outside_coordinate_range_is_none() {
    let c = Coord { x: i64::MAX - 1, y: 0 };
    assert_eq!(Topology::LineExtended.neighbor(c, 3), None);
    assert_eq!(Topology::Line.neighbor(c, 1), Some(Coord { x: i64::MAX, y: 0 }));
}

#[test]
fn alpha_types_map_to_topologies() {
    assert_eq!(SimAlphaType::TwoD.topology(), Topology::Grid);
    assert_eq!(SimAlphaType::OneDB.topology(), Topology::LineExtended);
}

#[test]
fn new_node_draws_each_clock_after_creation() {
    let rates = Topology::Line.rates(PARAM_SCALE, 0).unwrap();
    let mut src = Recorder::new(ScriptedSource::new(vec![4, 2, 9]));
    let n = Node::new(&rates, 10, &mut src);
    assert_eq!(n.state, State::Infected);
    assert_eq!(n.t_heal, 14);
    assert_eq!(n.t_infect, vec![12, 19]);
    assert_eq!(n.get_min(), 12);
    assert_eq!(n.get_min_state(), InfectProgress::Infect(0));
}

#[test]
fn ties_go_to_recovery_then_earlier_direction() {
    let n = Node { t_heal: 5, t_infect: vec![5, 5], state: State::Infected };
    assert_eq!(n.get_min_state(), InfectProgress::Heal);
    let n = Node { t_heal: 6, t_infect: vec![9, 5, 5, 7], state: State::Infected };
    assert_eq!(n.get_min_state(), InfectProgress::Infect(1));
    assert_eq!(n.get_min(), 5);
}

#[test]
fn infection_clock_step_moves_only_that_clock() {
    let rates = Topology::Line.rates(PARAM_SCALE, 0).unwrap();
    let mut n = Node { t_heal: 10, t_infect: vec![8, 3], state: State::Infected };
    let mut src = Recorder::new(ScriptedSource::new(vec![4]));
    n.step(&rates, &mut src);
    assert_eq!(n.t_infect, vec![8, 7]);
    assert_eq!(n.t_heal, 10);
    assert_eq!(n.state, State::Infected);
}

#[test]
fn recovery_step_heals_and_moves_clocks_past_recovery() {
    let rates = Topology::Line.rates(PARAM_SCALE, 0).unwrap();
    let mut n = Node { t_heal: 10, t_infect: vec![12, 11], state: State::Infected };
    let mut src = Recorder::new(ScriptedSource::new(vec![3]));
    n.step(&rates, &mut src);
    assert_eq!(n.state, State::Healthy);
    assert_eq!(n.t_infect, vec![12, 11]);
    assert_eq!(n.t_heal, 13);
    let mut n2 = Node { t_heal: 2, t_infect: vec![3, 4], state: State::Infected };
    let mut src = Recorder::new(ScriptedSource::new(vec![5]));
    n2.step(&rates, &mut src);
    assert_eq!(n2.state, State::Healthy);
    assert_eq!(n2.t_infect, vec![3, 4]);
    assert_eq!(n2.t_heal, 7);
}

#[test]
fn reinfection_moves_every_clock_past_time() {
    let rates = Topology::Line.rates(PARAM_SCALE, 0).unwrap();
    let mut n = Node { t_heal: 2, t_infect: vec![3, 50], state: State::Healthy };
    let mut src = Recorder::new(ScriptedSource::new(vec![4]));
    n.infect(&rates, 10, &mut src);
    assert_eq!(n.state, State::Infected);
    assert_eq!(n.t_heal, 10);
    assert_eq!(n.t_infect, vec![11, 50]);
}

/// Answers 7 for the recovery rate and 3 for any other rate.
struct RateEcho;

impl contact_process::clock::ExpSource for RateEcho {
    fn draw(&mut self, rate: Rate) -> u64 {
        if rate == (Rate { num: 1, den: 1 }) {
            7
        } else {
            3
        }
    }
}

#[test]
fn recovery_clock_draws_at_rate_one() {
    let rates = Topology::Grid.rates(3 * PARAM_SCALE, 400_000).unwrap();
    let mut src = Recorder::new(RateEcho);
    let mut n = Node::new(&rates, 100, &mut src);
    assert_eq!(n.t_heal, 107);
    assert_eq!(n.t_infect, vec![103, 103, 103, 103]);
    n.step(&rates, &mut src);
    assert_eq!(n.t_infect, vec![106, 103, 103, 103]);
    n.t_infect = vec![200, 200, 200, 200];
    n.step(&rates, &mut src);
    assert_eq!(n.state, State::Healthy);
    assert_eq!(n.t_heal, 114);
}

#[test]
fn reinfection_at_same_time_changes_nothing() {
    let rates = Topology::Line.rates(PARAM_SCALE, 0).unwrap();
    let mut n = Node { t_heal: 2, t_infect: vec![3, 50], state: State::Healthy };
    let mut src = Recorder::new(ScriptedSource::new(vec![4]));
    n.infect(&rates, 10, &mut src);
    let once = (n.t_heal, n.t_infect.clone(), n.state);
    n.infect(&rates, 10, &mut src);
    assert_eq!((n.t_heal, n.t_infect.clone(), n.state), once);
}
