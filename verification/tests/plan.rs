use std::collections::hash_map::DefaultHasher;
use std::collections::HashSet;
use std::hash::{Hash, Hasher};

use train_network::args;
use train_network::args::case;
use train_network::error::Error;
use train_network::model;
use train_network::model::state::{Action, Network, Precedence};

fn resolved(input: args::Network) -> model::Network {
    model::Network::try_from(input).unwrap()
}

fn all_cases() -> Vec<args::Network> {
    vec![
        case::direct(),
        case::choice(),
        case::islands(),
        case::diverge(),
        case::multiple_packages_small_train(),
        case::multiple_packages_big_train(),
        case::multiple_packages_islands(),
    ]
}

/// Every state that the trains can get to, the first state first.
fn reachable(start: Network) -> Vec<Network> {
    let mut seen: HashSet<Network> = HashSet::new();
    let mut found = vec![start.clone()];
    seen.insert(start);
    let mut next = 0;
    while next < found.len() {
        let state = found[next].clone();
        next += 1;
        for (successor, _) in state.take_available_actions() {
            if seen.insert(successor.clone()) {
                found.push(successor);
            }
        }
    }
    found
}

fn hash_of(state: &Network) -> u64 {
    let mut hasher = DefaultHasher::new();
    state.hash(&mut hasher);
    hasher.finish()
}

#[test]
fn cargo_stays_within_capacity() {
    for input in all_cases() {
        let network = resolved(input);
        for state in reachable(Network::new(&network)) {
            for train in &state.train_states {
                assert!(train.current_weight() <= train.train.capacity);
                let held: u32 = train.current_packages().iter().map(|p| p.weight).sum();
                assert_eq!(held, train.current_weight());
            }
        }
    }
}

#[test]
fn drops_follow_picks_on_the_same_train() {
    for input in all_cases() {
        let network = resolved(input);
        for state in reachable(Network::new(&network)) {
            for train in &state.train_states {
                let taken = &train.taken_actions;
                for (j, action) in taken.iter().enumerate() {
                    let Action::Drop(package, _) = action else {
                        continue;
                    };
                    let pick = taken[..j]
                        .iter()
                        .rposition(|a| matches!(a, Action::Pick(p, _) if p == package))
                        .unwrap();
                    assert!(!taken[pick..j]
                        .iter()
                        .any(|a| matches!(a, Action::Drop(p, _) if p == package)));
                }
            }
        }
    }
}

#[test]
fn goal_states_take_every_required_action_once() {
    for input in all_cases() {
        let network = resolved(input);
        let mut goals = 0;
        for state in reachable(Network::new(&network)) {
            let taken = state.taken_actions();
            let distinct: HashSet<&Action> = taken.iter().collect();
            assert_eq!(distinct.len(), taken.len());
            assert!(taken.iter().all(|a| state.required_actions.contains(a)));
            if !state.is_success() {
                assert!(taken.len() < state.required_actions.len());
                continue;
            }
            goals += 1;
            assert_eq!(taken.len(), state.required_actions.len());
            assert!(state.available_actions().is_empty());
            assert!(state.untaken_actions().is_empty());
            assert!(state.take_available_actions().is_empty());
            for package in &network.packages {
                let picks = taken
                    .iter()
                    .filter(|a| matches!(a, Action::Pick(p, _) if p == package))
                    .count();
                let drops = taken
                    .iter()
                    .filter(|a| matches!(a, Action::Drop(p, _) if p == package))
                    .count();
                assert_eq!((picks, drops), (1, 1));
            }
        }
        assert!(goals > 0);
    }
}

#[test]
fn successors_cost_what_the_makespan_grows_by() {
    for input in all_cases() {
        let network = resolved(input);
        for state in reachable(Network::new(&network)) {
            let before = state.optimal_duration_mins();
            for (successor, cost) in state.take_available_actions() {
                let after = successor.optimal_duration_mins();
                assert!(after >= before);
                assert_eq!(after - before, cost);
                assert_eq!(
                    successor.taken_actions().len(),
                    state.taken_actions().len() + 1
                );
            }
        }
    }
}

#[test]
fn instruction_times_add_up_to_the_makespan() {
    for input in all_cases() {
        let network = resolved(input);
        for state in reachable(Network::new(&network)) {
            let mut longest = 0;
            let mut all = 0;
            for train in &state.train_states {
                let instructions = train.instructions(&state.route_map);
                let time: u32 = instructions.iter().map(|i| i.route.travel_time).sum();
                assert_eq!(time, train.optimal_duration_mins(&state.route_map));
                let mut clock = 0;
                for instruction in &instructions {
                    assert_eq!(instruction.begin_at, clock);
                    assert_eq!(instruction.train, train.train);
                    clock += instruction.route.travel_time;
                }
                longest = longest.max(time);
                all += instructions.len();
            }
            assert_eq!(longest, state.optimal_duration_mins());
            assert_eq!(all, state.instructions().len());
        }
    }
}

#[test]
fn optimal_instructions_take_the_optimal_time() {
    for input in all_cases() {
        let network = resolved(input);
        let time = network.optimal_time_mins().unwrap();
        let instructions = network.optimal_instructions().unwrap();
        let mut longest = 0;
        for train in &network.trains {
            let of_train: u32 = instructions
                .iter()
                .filter(|i| i.train == *train)
                .map(|i| i.route.travel_time)
                .sum();
            longest = longest.max(of_train);
        }
        assert_eq!(longest, time);
        let (path, cost) = network.solve().unwrap();
        assert_eq!(cost, time);
        assert_eq!(path.last().unwrap().optimal_duration_mins(), time);
        assert!(path.last().unwrap().is_success());
        assert_eq!(path[0], Network::new(&network));
        for k in 1..path.len() {
            assert!(path[k - 1]
                .take_available_actions()
                .iter()
                .any(|(next, _)| *next == path[k]));
        }
    }
}

#[test]
fn every_pick_and_drop_is_instructed_once() {
    for input in all_cases() {
        let network = resolved(input);
        let instructions = network.optimal_instructions().unwrap();
        for package in &network.packages {
            let picked: Vec<_> = instructions
                .iter()
                .filter(|i| i.picked_package.as_ref() == Some(package))
                .collect();
            let dropped: Vec<_> = instructions
                .iter()
                .filter(|i| i.dropped_package.as_ref() == Some(package))
                .collect();
            assert_eq!(picked.len(), 1);
            assert_eq!(dropped.len(), 1);
            assert_eq!(picked[0].route.to(), package.from());
            assert_eq!(dropped[0].route.to(), package.to());
            assert_eq!(picked[0].train, dropped[0].train);
            assert!(picked[0].begin_at <= dropped[0].begin_at);
        }
    }
}

#[test]
fn the_order_of_the_input_does_not_matter() {
    for input in all_cases() {
        let expected = resolved(input.clone_all()).optimal_time_mins();
        for turn in 0..8 {
            let mut other = input.clone_all();
            if turn & 1 != 0 {
                other.routes.reverse();
            }
            if turn & 2 != 0 {
                other.packages.reverse();
            }
            if turn & 4 != 0 {
                other.trains.reverse();
            }
            assert_eq!(resolved(other).optimal_time_mins(), expected);
        }
    }
}

trait CloneAll {
    fn clone_all(&self) -> args::Network;
}

impl CloneAll for args::Network {
    fn clone_all(&self) -> args::Network {
        args::Network {
            stations: self.stations.clone(),
            routes: self.routes.clone(),
            packages: self.packages.clone(),
            trains: self.trains.clone(),
        }
    }
}

#[test]
fn a_package_as_heavy_as_the_train_holds_is_carried() {
    let mut input = case::direct();
    input.packages[0].weight = 5;
    input.trains[0].capacity = 5;
    assert_eq!(resolved(input).optimal_time_mins(), Ok(20));
}

#[test]
fn a_package_heavier_than_the_train_holds_is_infeasible() {
    let mut input = case::direct();
    input.packages[0].weight = 6;
    let network = resolved(input);
    assert_eq!(network.optimal_time_mins(), Err(Error::Infeasible));
    assert_eq!(network.optimal_instructions().unwrap_err(), Error::Infeasible);
    assert!(network.solve().is_none());
}

#[test]
fn a_package_that_no_train_can_get_to_is_infeasible() {
    let mut input = case::islands();
    input.packages[0].from_to = ("C".to_string(), "C".to_string());
    let network = resolved(input);
    assert_eq!(network.optimal_time_mins(), Err(Error::Infeasible));
    let state = Network::new(&network);
    assert!(!state.is_success());
    assert!(state.available_actions().is_empty());
    assert!(state.take_available_actions().is_empty());
}

#[test]
fn a_package_that_cannot_get_where_it_has_to_go_is_infeasible() {
    let mut input = case::islands();
    input.packages[0].from_to = ("A".to_string(), "C".to_string());
    let network = resolved(input);
    assert_eq!(network.optimal_time_mins(), Err(Error::Infeasible));
    let state = Network::new(&network);
    let picked = state.take_available_actions();
    assert_eq!(picked.len(), 1);
    assert!(picked[0].0.take_available_actions().is_empty());
    assert!(!picked[0].0.is_success());
}

#[test]
fn a_package_that_stays_takes_no_time() {
    let mut input = case::direct();
    input.packages[0].from_to = ("A".to_string(), "A".to_string());
    let network = resolved(input);
    assert_eq!(network.optimal_time_mins(), Ok(0));
    let instructions = network.optimal_instructions().unwrap();
    assert_eq!(instructions.len(), 2);
    assert!(instructions[0].picked_package.is_some());
    assert!(instructions[1].dropped_package.is_some());
    assert!(instructions.iter().all(|i| i.route.travel_time == 0));
    assert!(instructions.iter().all(|i| i.route.name == "A#id"));

    let mut input = case::direct();
    input.packages[0].from_to = ("C".to_string(), "C".to_string());
    assert_eq!(resolved(input).optimal_time_mins(), Ok(20));
}

#[test]
fn nothing_to_deliver_takes_no_time() {
    let mut input = case::direct();
    input.packages.clear();
    let network = resolved(input);
    assert_eq!(network.optimal_time_mins(), Ok(0));
    assert!(network.optimal_instructions().unwrap().is_empty());

    let mut input = case::direct();
    input.packages.clear();
    input.trains.clear();
    let network = resolved(input);
    assert_eq!(network.optimal_time_mins(), Ok(0));
    assert_eq!(Network::new(&network).optimal_duration_mins(), 0);
}

#[test]
fn no_train_delivers_nothing() {
    let mut input = case::direct();
    input.trains.clear();
    assert_eq!(resolved(input).optimal_time_mins(), Err(Error::Infeasible));
}

#[test]
fn two_trains_share_the_work() {
    let mut input = case::diverge();
    input.trains.push(args::Train {
        name: "U".to_string(),
        capacity: 5,
        initial_station_name: "B".to_string(),
    });
    // U carries P1 from B to A while T carries P2 from D to E.
    assert_eq!(resolved(input).optimal_time_mins(), Ok(50));
}

#[test]
fn states_are_the_same_when_their_fleets_are() {
    let network = resolved(case::diverge());
    let state = Network::new(&network);
    let other = Network::new(&resolved(case::multiple_packages_small_train()));
    assert_ne!(state, other);
    assert_eq!(state, state.clone());
    assert_eq!(hash_of(&state), hash_of(&state.clone()));

    // Same fleet, other required actions and another table.
    let mut mixed = other.clone();
    mixed.train_states = state.train_states.clone();
    assert_eq!(state, mixed);
    assert_eq!(hash_of(&state), hash_of(&mixed));

    let mut moved = state.clone();
    let pick = state.required_actions[0].clone();
    moved.train_states[0].take_action(&pick);
    assert_ne!(state, moved);
    assert_eq!(moved.train_states[0].taken_actions, vec![pick]);
}

#[test]
fn a_copy_of_a_state_shares_the_table() {
    let network = resolved(case::diverge());
    let state = Network::new(&network);
    let copy = state.clone();
    assert!(std::rc::Rc::ptr_eq(&state.route_map, &copy.route_map));
    assert_eq!(copy.route_map.paths.len(), state.route_map.paths.len());
    assert_eq!(copy.required_actions, state.required_actions);
    for (successor, _) in state.take_available_actions() {
        assert!(std::rc::Rc::ptr_eq(&state.route_map, &successor.route_map));
    }
}

#[test]
fn feasibility_of_single_actions() {
    let network = resolved(case::multiple_packages_small_train());
    let mut state = Network::new(&network);
    let map = state.route_map.clone();
    let actions = state.required_actions.clone();
    let (pick_p1, drop_p1, pick_p2) = (&actions[0], &actions[1], &actions[2]);
    let p1 = pick_p1.package();
    let p2 = pick_p2.package();

    let train = &state.train_states[0];
    assert!(train.can_pick(&p1, &map));
    assert!(!train.can_drop(&p1));
    assert!(train.can_take(pick_p1, &map));
    assert!(!train.can_take(drop_p1, &map));
    assert!(train.can_reach(drop_p1, &map));
    assert!(train.current_packages().is_empty());

    state.train_states[0].take_action(pick_p1);
    let train = &state.train_states[0];
    assert_eq!(train.current_packages(), vec![p1.clone()]);
    assert!(!train.can_pick(&p2, &map));
    assert!(train.can_drop(&p1));
    assert!(!train.can_drop(&p2));
    assert_eq!(train.available_actions(&actions, &map), vec![drop_p1]);

    state.train_states[0].take_action(drop_p1);
    let train = &state.train_states[0];
    assert!(train.current_packages().is_empty());
    assert!(!train.can_drop(&p1));
    assert!(train.can_pick(&p2, &map));
    let paths = train.optimal_route_paths(&map);
    assert_eq!(paths.len(), 2);
    assert_eq!(paths[0].routes[0].name, "A#id");
    assert_eq!(paths[1].routes[0].name, "AB");
    let subs = train.sub_instructions(&paths[1], drop_p1, 7);
    assert_eq!(subs.len(), 1);
    assert_eq!(subs[0].begin_at, 7);
    assert_eq!(subs[0].dropped_package, Some(p1));
    assert_eq!(subs[0].picked_package, None);
}

#[test]
fn picks_come_before_drops() {
    let network = resolved(case::diverge());
    let actions = network.actions();
    let (pick_p1, drop_p1, pick_p2, drop_p2) = (&actions[0], &actions[1], &actions[2], &actions[3]);
    assert_eq!(pick_p1.precedence(drop_p1), Precedence::Before);
    assert_eq!(pick_p1.precedence(drop_p2), Precedence::Before);
    assert_eq!(drop_p1.precedence(pick_p2), Precedence::After);
    assert_eq!(pick_p1.precedence(pick_p2), Precedence::Same);
    assert_eq!(drop_p2.precedence(drop_p1), Precedence::Same);
    assert_eq!(pick_p1.precedence(pick_p1), Precedence::Same);
}

#[test]
fn a_train_stands_where_it_last_acted() {
    let network = resolved(case::diverge());
    let mut state = Network::new(&network);
    let actions = state.required_actions.clone();
    assert_eq!(state.train_states[0].position().name, "C");
    state.train_states[0].take_action(&actions[0]);
    assert_eq!(state.train_states[0].position().name, "B");
    state.train_states[0].take_action(&actions[1]);
    assert_eq!(state.train_states[0].position().name, "A");
}
