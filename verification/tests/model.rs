use train_network::args;
use train_network::args::case;
use train_network::error::Error;
use train_network::model::route_path::RoutePath;
use train_network::model::state::Action;
use train_network::model::{find_station, total_line, Instruction, Network, Package, Route, Station, Train};

fn station(name: &str) -> Station {
    Station {
        name: name.to_string(),
    }
}

fn resolved(input: args::Network) -> Network {
    Network::try_from(input).unwrap()
}

fn route_names(path: &RoutePath) -> Vec<String> {
    path.routes.iter().map(|route| route.name.clone()).collect()
}

#[test]
fn try_from_doubles_the_routes() {
    let network = resolved(case::direct());
    let names: Vec<&str> = network.routes.iter().map(|r| r.name.as_str()).collect();
    assert_eq!(names, vec!["AB#rev", "BC#rev", "AB", "BC"]);
    assert_eq!(network.routes[0].from().name, "B");
    assert_eq!(network.routes[0].to().name, "A");
    assert_eq!(network.routes[2].from().name, "A");
    assert_eq!(network.routes[2].to().name, "B");
    assert_eq!(network.routes[0].travel_time, 10);
    assert_eq!(network.stations.len(), 3);
    assert_eq!(network.packages[0].from().name, "A");
    assert_eq!(network.packages[0].to().name, "C");
    assert_eq!(network.trains[0].initial_station.name, "A");
}

#[test]
fn route_predicates() {
    let network = resolved(case::direct());
    let ab = &network.routes[2];
    assert!(ab.is_from(&station("A")));
    assert!(!ab.is_from(&station("B")));
    assert!(ab.is_to(&station("B")));
    assert!(!ab.is_to(&station("A")));
}

#[test]
fn routes_are_the_same_when_their_names_are() {
    let network = resolved(case::direct());
    let ab = network.routes[2].clone();
    let mut other = network.routes[3].clone();
    assert!(ab != other);
    other.name = "AB".to_string();
    assert!(ab == other);
    assert!(network.routes[0] != network.routes[2]);
}

#[test]
fn find_station_by_name() {
    let stations = vec![station("A"), station("B")];
    assert_eq!(find_station(&stations, "B".to_string()), Ok(station("B")));
    assert_eq!(
        find_station(&stations, "C".to_string()),
        Err(Error::UnknownStation("C".to_string()))
    );
    assert_eq!(
        find_station(&[], "A".to_string()),
        Err(Error::UnknownStation("A".to_string()))
    );
}

#[test]
fn unknown_station_of_a_route() {
    let mut input = case::direct();
    input.routes[1].from_to.1 = "X".to_string();
    assert_eq!(
        Network::try_from(input).unwrap_err(),
        Error::UnknownStation("X".to_string())
    );
}

#[test]
fn unknown_station_of_a_package() {
    let mut input = case::direct();
    input.packages[0].from_to.0 = "Y".to_string();
    assert_eq!(
        Network::try_from(input).unwrap_err(),
        Error::UnknownStation("Y".to_string())
    );
}

#[test]
fn unknown_station_of_a_train() {
    let mut input = case::direct();
    input.trains[0].initial_station_name = "Z".to_string();
    assert_eq!(
        Network::try_from(input).unwrap_err(),
        Error::UnknownStation("Z".to_string())
    );
}

#[test]
fn the_first_unknown_station_is_reported() {
    let mut input = case::direct();
    input.trains[0].initial_station_name = "Z".to_string();
    input.packages[0].from_to = ("Y1".to_string(), "Y2".to_string());
    input.routes[1].from_to = ("X1".to_string(), "X2".to_string());
    // The reverse of a route is looked up first, and it begins at the
    // route's far end.
    assert_eq!(
        Network::try_from(input).unwrap_err(),
        Error::UnknownStation("X2".to_string())
    );

    let mut input = case::direct();
    input.trains[0].initial_station_name = "Z".to_string();
    input.packages[0].from_to = ("Y1".to_string(), "Y2".to_string());
    assert_eq!(
        Network::try_from(input).unwrap_err(),
        Error::UnknownStation("Y1".to_string())
    );
}

#[test]
fn required_actions_pick_then_drop() {
    let network = resolved(case::diverge());
    let actions = network.actions();
    assert_eq!(actions.len(), 4);
    let p1 = network.packages[0].clone();
    let p2 = network.packages[1].clone();
    assert_eq!(actions[0], Action::Pick(p1.clone(), station("B")));
    assert_eq!(actions[1], Action::Drop(p1.clone(), station("A")));
    assert_eq!(actions[2], Action::Pick(p2.clone(), station("D")));
    assert_eq!(actions[3], Action::Drop(p2, station("E")));
    assert_eq!(p1.actions(), actions[0..2].to_vec());
    assert_eq!(actions[0].package(), p1);
    assert_eq!(actions[1].station(), station("A"));
}

#[test]
fn limits() {
    let network = resolved(case::diverge());
    assert!(network.is_within_limits());
    assert_eq!(network.total_travel_time(), 220);

    let mut input = case::direct();
    input.routes[0].travel_time = u32::MAX;
    assert!(!resolved(input).is_within_limits());

    // One package: the times of all routes, both ways, three times over.
    let mut input = case::islands();
    input.routes[0].travel_time = 715_827_882;
    assert!(resolved(input).is_within_limits());
    let mut input = case::islands();
    input.routes[0].travel_time = 715_827_883;
    assert!(!resolved(input).is_within_limits());
}

#[test]
fn table_has_the_shorter_way() {
    let network = resolved(case::choice());
    let map = network.all_shortest_route_paths_map();
    let path = map.get(&station("A"), &station("D")).unwrap();
    assert_eq!(route_names(path), vec!["AB", "BD"]);
    assert_eq!(path.total_duration_mins(), 20);
    assert_eq!(path.station_pair, (station("A"), station("D")));
    let back = map.get(&station("D"), &station("A")).unwrap();
    assert_eq!(route_names(back), vec!["BD#rev", "AB#rev"]);
    assert_eq!(back.total_duration_mins(), 20);
    let path = map.get(&station("C"), &station("D")).unwrap();
    assert_eq!(path.total_duration_mins(), 30);
    assert_eq!(route_names(path), vec!["AC#rev", "AB", "BD"]);
    assert_eq!(map.limit, 160);
}

#[test]
fn table_has_the_way_to_stay() {
    let network = resolved(case::islands());
    let map = network.all_shortest_route_paths_map();
    for name in ["A", "B", "C"] {
        let path = map.get(&station(name), &station(name)).unwrap();
        assert_eq!(path.routes.len(), 1);
        assert_eq!(path.routes[0].name, format!("{name}#id"));
        assert_eq!(path.routes[0].travel_time, 0);
        assert_eq!(path.routes[0].from_to, (station(name), station(name)));
        assert_eq!(path.total_duration_mins(), 0);
    }
}

#[test]
fn table_has_no_way_between_islands() {
    let network = resolved(case::islands());
    let map = network.all_shortest_route_paths_map();
    assert!(map.get(&station("A"), &station("C")).is_none());
    assert!(map.get(&station("C"), &station("A")).is_none());
    assert!(map.get(&station("C"), &station("B")).is_none());
    assert!(map.get(&station("A"), &station("X")).is_none());
    assert!(map.get(&station("X"), &station("X")).is_none());
    assert!(map.get(&station("A"), &station("B")).is_some());
    assert!(map.get(&station("B"), &station("A")).is_some());
    // A to A, B to B, C to C, A to B, B to A.
    assert_eq!(map.paths.len(), 5);
}

#[test]
fn table_takes_the_faster_of_two_routes() {
    let mut input = case::islands();
    input.routes.push(args::Route {
        name: "fast".to_string(),
        from_to: ("A".to_string(), "B".to_string()),
        travel_time: 3,
    });
    input.routes.push(args::Route {
        name: "slow".to_string(),
        from_to: ("B".to_string(), "A".to_string()),
        travel_time: 30,
    });
    let network = resolved(input);
    let map = network.all_shortest_route_paths_map();
    let path = map.get(&station("A"), &station("B")).unwrap();
    assert_eq!(route_names(path), vec!["fast"]);
    assert_eq!(path.total_duration_mins(), 3);
    let back = map.get(&station("B"), &station("A")).unwrap();
    assert_eq!(route_names(back), vec!["fast#rev"]);
    assert_eq!(network.optimal_time_mins(), Ok(3));
}

#[test]
fn table_times_obey_the_triangle_inequality() {
    for input in [case::diverge(), case::choice(), case::multiple_packages_islands()] {
        let network = resolved(input);
        let map = network.all_shortest_route_paths_map();
        for a in &network.stations {
            for b in &network.stations {
                for c in &network.stations {
                    let (Some(ab), Some(bc)) = (map.get(a, b), map.get(b, c)) else {
                        continue;
                    };
                    let ac = map.get(a, c).unwrap();
                    assert!(
                        ac.total_duration_mins()
                            <= ab.total_duration_mins() + bc.total_duration_mins()
                    );
                }
            }
        }
    }
}

#[test]
fn shortest_paths_from_a_station() {
    let network = resolved(case::diverge());
    let mut found: Vec<(String, u32)> = network
        .shortest_route_paths(&station("C"))
        .iter()
        .map(|path| (path.station_pair.1.name.clone(), path.total_duration_mins()))
        .collect();
    found.sort();
    assert_eq!(
        found,
        vec![
            ("A".to_string(), 60),
            ("B".to_string(), 50),
            ("D".to_string(), 40),
            ("E".to_string(), 50),
        ]
    );
    let to_a = network
        .shortest_route_paths(&station("C"))
        .into_iter()
        .find(|path| path.station_pair.1.name == "A")
        .unwrap();
    assert_eq!(to_a.station_pair.0, station("C"));
    assert_eq!(route_names(&to_a), vec!["BC#rev", "AB#rev"]);
}

#[test]
fn routes_from_a_station() {
    let network = resolved(case::diverge());
    let names: Vec<&str> = network
        .routes_from(&station("C"))
        .iter()
        .map(|route| route.name.as_str())
        .collect();
    assert_eq!(names, vec!["BC#rev", "CD"]);
    assert_eq!(
        network.reachable_stations(&station("C")),
        vec![(station("B"), 50), (station("D"), 40)]
    );
    assert!(network.reachable_stations(&station("X")).is_empty());
}

#[test]
fn path_through_stations() {
    let network = resolved(case::diverge());
    let through = [station("B"), station("C"), station("D")];
    let path = RoutePath::try_from(&through, &network.routes).unwrap();
    assert_eq!(route_names(&path), vec!["BC", "CD"]);
    assert_eq!(path.station_pair, (station("B"), station("D")));
    assert_eq!(path.total_duration_mins(), 90);

    let one = RoutePath::try_from(&through[..1], &network.routes).unwrap();
    assert!(one.routes.is_empty());
    assert!(RoutePath::try_from(&[], &network.routes).is_none());
    let apart = [station("A"), station("C")];
    assert!(RoutePath::try_from(&apart, &network.routes).is_none());
}

#[test]
fn instruction_lines() {
    let train = Train {
        name: "T".to_string(),
        capacity: 5,
        initial_station: station("A"),
    };
    let package = Package {
        name: "P".to_string(),
        weight: 5,
        from_to: (station("A"), station("C")),
    };
    let route = Route {
        name: "AB".to_string(),
        from_to: (station("A"), station("B")),
        travel_time: 10,
    };
    let mut instruction = Instruction {
        begin_at: 0,
        train,
        route,
        picked_package: Some(package.clone()),
        dropped_package: None,
    };
    assert_eq!(
        instruction.to_line(),
        "W = 0, T = T, N1 = A, P1 = [P], N2 = B, P2 = []"
    );
    instruction.begin_at = 4_294_967_295;
    instruction.picked_package = None;
    instruction.dropped_package = Some(package);
    assert_eq!(
        instruction.to_line(),
        "W = 4294967295, T = T, N1 = A, P1 = [], N2 = B, P2 = [P]"
    );
    instruction.begin_at = 1020;
    instruction.dropped_package = None;
    assert_eq!(
        instruction.to_line(),
        "W = 1020, T = T, N1 = A, P1 = [], N2 = B, P2 = []"
    );
    assert_eq!(total_line(0), "Total time used: 0");
    assert_eq!(total_line(160), "Total time used: 160");
}

#[test]
fn instructions_of_the_direct_plan() {
    let network = resolved(case::direct());
    let lines: Vec<String> = network
        .optimal_instructions()
        .unwrap()
        .iter()
        .map(|instruction| instruction.to_line())
        .collect();
    assert_eq!(
        lines,
        vec![
            "W = 0, T = T, N1 = A, P1 = [P], N2 = A, P2 = []",
            "W = 0, T = T, N1 = A, P1 = [], N2 = B, P2 = []",
            "W = 10, T = T, N1 = B, P1 = [], N2 = C, P2 = [P]",
        ]
    );
}

fn named_route(name: &str, from: &str, to: &str, travel_time: u32) -> args::Route {
    args::Route {
        name: name.to_string(),
        from_to: (from.to_string(), to.to_string()),
        travel_time,
    }
}

fn all_names(network: &Network) -> Vec<String> {
    network.routes.iter().map(|r| r.name.clone()).collect()
}

fn assert_pairwise_different(names: &[String]) {
    for (i, a) in names.iter().enumerate() {
        for b in &names[i + 1..] {
            assert_ne!(a, b);
        }
    }
}

#[test]
fn a_reverse_never_bears_the_name_of_a_route() {
    let mut input = case::islands();
    input.routes = vec![
        named_route("AB", "A", "B", 10),
        named_route("AB#rev", "A", "B", 10),
    ];
    let network = resolved(input);
    assert_eq!(
        all_names(&network),
        vec!["AB#rev#rev", "AB#rev#rev#rev", "AB", "AB#rev"]
    );
    assert_pairwise_different(&all_names(&network));
    assert_eq!(network.routes[0].from_to, (station("B"), station("A")));
    assert_eq!(network.routes[1].from_to, (station("B"), station("A")));
    assert_eq!(network.routes[2].from_to, (station("A"), station("B")));
    assert_eq!(network.optimal_time_mins(), Ok(10));
}

#[test]
fn reverses_take_as_many_marks_as_it_takes() {
    let mut input = case::islands();
    input.routes = vec![
        named_route("x#rev#rev", "A", "B", 1),
        named_route("x", "B", "A", 2),
        named_route("y", "A", "B", 3),
        named_route("x#rev", "A", "B", 4),
    ];
    let network = resolved(input);
    assert_eq!(
        all_names(&network),
        vec![
            "x#rev#rev#rev#rev#rev",
            "x#rev#rev#rev",
            "y#rev#rev#rev",
            "x#rev#rev#rev#rev",
            "x#rev#rev",
            "x",
            "y",
            "x#rev",
        ]
    );
    assert_pairwise_different(&all_names(&network));
}

#[test]
fn reverses_bear_the_same_names_in_whatever_order_the_routes_come() {
    let routes = vec![
        named_route("AB", "A", "B", 10),
        named_route("AB#rev", "B", "A", 7),
        named_route("BC", "B", "C", 5),
    ];
    let mut input = case::islands();
    input.routes = routes.clone();
    let mut forth = all_names(&resolved(input));
    let mut input = case::islands();
    input.routes = routes.into_iter().rev().collect();
    let mut back = all_names(&resolved(input));
    forth.sort();
    back.sort();
    assert_eq!(forth, back);
}

#[test]
fn reverses_of_plain_names_take_one_mark() {
    for input in [case::diverge(), case::choice(), case::multiple_packages_islands()] {
        let given: Vec<String> = input.routes.iter().map(|r| r.name.clone()).collect();
        let network = resolved(input);
        let names = all_names(&network);
        assert_eq!(names.len(), 2 * given.len());
        for (i, name) in given.iter().enumerate() {
            assert_eq!(names[i], format!("{name}#rev"));
            assert_eq!(&names[given.len() + i], name);
            assert!(!given.contains(&names[i]));
        }
        assert_pairwise_different(&names);
    }
}

#[test]
fn no_two_paths_lead_from_the_same_station_to_the_same_station() {
    for input in [
        case::direct(),
        case::diverge(),
        case::choice(),
        case::islands(),
        case::multiple_packages_islands(),
    ] {
        let network = resolved(input);
        let paths = network.all_shortest_route_paths();
        for (i, a) in paths.iter().enumerate() {
            for b in &paths[i + 1..] {
                assert_ne!(a.station_pair, b.station_pair);
            }
        }
        for s in &network.stations {
            let own = paths
                .iter()
                .filter(|p| p.station_pair == (s.clone(), s.clone()))
                .count();
            assert_eq!(own, 1);
        }
        let map = network.all_shortest_route_paths_map();
        assert_eq!(map.paths.len(), paths.len());
        for path in &paths {
            let found = map.get(&path.station_pair.0, &path.station_pair.1).unwrap();
            assert_eq!(found.total_duration_mins(), path.total_duration_mins());
        }
    }
}

#[test]
fn route_paths_are_the_same_when_their_ends_and_route_names_are() {
    let network = resolved(case::diverge());
    let map = network.all_shortest_route_paths_map();
    let path = map.get(&station("A"), &station("C")).unwrap();
    let mut copy = path.clone();
    assert!(*path == copy);
    copy.routes[0].travel_time = 99;
    assert!(*path == copy);
    copy.routes[0].name = "other".to_string();
    assert!(*path != copy);
    let mut copy = path.clone();
    copy.station_pair.1 = station("D");
    assert!(*path != copy);
    let mut copy = path.clone();
    copy.routes.pop();
    assert!(*path != copy);
    assert!(*path != *map.get(&station("C"), &station("A")).unwrap());
}

#[test]
fn networks_and_instructions_can_be_copied() {
    let network = resolved(case::diverge());
    let copy = network.clone();
    assert_eq!(copy.stations, network.stations);
    assert_eq!(all_names(&copy), all_names(&network));
    assert_eq!(copy.packages, network.packages);
    assert_eq!(copy.trains, network.trains);
    assert_eq!(copy.routes[0].from_to, network.routes[0].from_to);
    assert_eq!(copy.routes[1].travel_time, network.routes[1].travel_time);
    assert_eq!(copy.optimal_time_mins(), Ok(160));

    let instructions = network.optimal_instructions().unwrap();
    for instruction in &instructions {
        let copy = instruction.clone();
        assert_eq!(copy.to_line(), instruction.to_line());
        assert_eq!(copy.route.travel_time, instruction.route.travel_time);
        assert_eq!(copy.train, instruction.train);
        assert_eq!(copy.picked_package, instruction.picked_package);
        assert_eq!(copy.dropped_package, instruction.dropped_package);
    }
}
