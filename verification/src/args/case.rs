//! Small networks to try the planner on.

use crate::args::{
    Network, NetworkView, Package, PackageView, Route, RouteView, Station, Train, TrainView,
};
use vstd::prelude::*;

verus! {

/// The station of the given name.
pub fn station(name: &str) -> (r: Station)
    ensures
        r@ == name@,
{
    Station { name: String::from_str(name) }
}

/// The route of the given name between two stations.
pub fn route(name: &str, from: &str, to: &str, travel_time: u32) -> (r: Route)
    ensures
        r@ == (RouteView { name: name@, from: from@, to: to@, travel_time: travel_time as nat }),
{
    Route {
        name: String::from_str(name),
        from_to: (String::from_str(from), String::from_str(to)),
        travel_time,
    }
}

/// The package of the given name and weight, to carry from one station
/// to another.
pub fn package(name: &str, weight: u32, from: &str, to: &str) -> (r: Package)
    ensures
        r@ == (PackageView { name: name@, weight: weight as nat, from: from@, to: to@ }),
{
    Package {
        name: String::from_str(name),
        weight,
        from_to: (String::from_str(from), String::from_str(to)),
    }
}

/// The train of the given name and capacity that starts at a station.
pub fn train(name: &str, capacity: u32, initial_station: &str) -> (r: Train)
    ensures
        r@ == (TrainView {
            name: name@,
            capacity: capacity as nat,
            initial_station: initial_station@,
        }),
{
    Train {
        name: String::from_str(name),
        capacity,
        initial_station_name: String::from_str(initial_station),
    }
}

/// Three stations in a row, one train and one package to carry from one
/// end to the other.
///
/// ```text
///   10   10
/// A----B----C
/// ```
pub fn direct() -> (n: Network)
    ensures
        n@ == (NetworkView {
            stations: seq!["A"@, "B"@, "C"@],
            routes: seq![
                RouteView { name: "AB"@, from: "A"@, to: "B"@, travel_time: 10 },
                RouteView { name: "BC"@, from: "B"@, to: "C"@, travel_time: 10 },
            ],
            packages: seq![
                PackageView { name: "P"@, weight: 5, from: "A"@, to: "C"@ },
            ],
            trains: seq![
                TrainView { name: "T"@, capacity: 5, initial_station: "A"@ },
            ],
        }),
{
    let mut stations: Vec<Station> = Vec::new();
    stations.push(station("A"));
    stations.push(station("B"));
    stations.push(station("C"));
    let mut routes: Vec<Route> = Vec::new();
    routes.push(route("AB", "A", "B", 10));
    routes.push(route("BC", "B", "C", 10));
    let mut packages: Vec<Package> = Vec::new();
    packages.push(package("P", 5, "A", "C"));
    let mut trains: Vec<Train> = Vec::new();
    trains.push(train("T", 5, "A"));
    let network = Network { stations, routes, packages, trains };
    proof {
        let v = network@;
        assert(v.stations =~= seq!["A"@, "B"@, "C"@]);
        assert(v.routes =~= seq![
            RouteView { name: "AB"@, from: "A"@, to: "B"@, travel_time: 10 },
            RouteView { name: "BC"@, from: "B"@, to: "C"@, travel_time: 10 },
        ]);
        assert(v.packages =~= seq![
            PackageView { name: "P"@, weight: 5, from: "A"@, to: "C"@ },
        ]);
        assert(v.trains =~= seq![
            TrainView { name: "T"@, capacity: 5, initial_station: "A"@ },
        ]);
    }
    network
}

/// Two ways from one station to another, one of them shorter.
///
/// ```text
///   10   10
/// /----B----\
/// A         D
/// \----C----/
///   10   50
/// ```
pub fn choice() -> (n: Network)
    ensures
        n@ == (NetworkView {
            stations: seq!["A"@, "B"@, "C"@, "D"@],
            routes: seq![
                RouteView { name: "AB"@, from: "A"@, to: "B"@, travel_time: 10 },
                RouteView { name: "AC"@, from: "A"@, to: "C"@, travel_time: 10 },
                RouteView { name: "BD"@, from: "B"@, to: "D"@, travel_time: 10 },
                RouteView { name: "CD"@, from: "C"@, to: "D"@, travel_time: 50 },
            ],
            packages: seq![
                PackageView { name: "P"@, weight: 5, from: "A"@, to: "D"@ },
            ],
            trains: seq![
                TrainView { name: "T"@, capacity: 5, initial_station: "A"@ },
            ],
        }),
{
    let mut stations: Vec<Station> = Vec::new();
    stations.push(station("A"));
    stations.push(station("B"));
    stations.push(station("C"));
    stations.push(station("D"));
    let mut routes: Vec<Route> = Vec::new();
    routes.push(route("AB", "A", "B", 10));
    routes.push(route("AC", "A", "C", 10));
    routes.push(route("BD", "B", "D", 10));
    routes.push(route("CD", "C", "D", 50));
    let mut packages: Vec<Package> = Vec::new();
    packages.push(package("P", 5, "A", "D"));
    let mut trains: Vec<Train> = Vec::new();
    trains.push(train("T", 5, "A"));
    let network = Network { stations, routes, packages, trains };
    proof {
        let v = network@;
        assert(v.stations =~= seq!["A"@, "B"@, "C"@, "D"@]);
        assert(v.routes =~= seq![
            RouteView { name: "AB"@, from: "A"@, to: "B"@, travel_time: 10 },
            RouteView { name: "AC"@, from: "A"@, to: "C"@, travel_time: 10 },
            RouteView { name: "BD"@, from: "B"@, to: "D"@, travel_time: 10 },
            RouteView { name: "CD"@, from: "C"@, to: "D"@, travel_time: 50 },
        ]);
        assert(v.packages =~= seq![
            PackageView { name: "P"@, weight: 5, from: "A"@, to: "D"@ },
        ]);
        assert(v.trains =~= seq![
            TrainView { name: "T"@, capacity: 5, initial_station: "A"@ },
        ]);
    }
    network
}

/// Two stations with a route between them, and a third that no route
/// leads to.
///
/// ```text
///   10
/// A----B    C
/// ```
pub fn islands() -> (n: Network)
    ensures
        n@ == (NetworkView {
            stations: seq!["A"@, "B"@, "C"@],
            routes: seq![
                RouteView { name: "AB"@, from: "A"@, to: "B"@, travel_time: 10 },
            ],
            packages: seq![
                PackageView { name: "P"@, weight: 5, from: "A"@, to: "B"@ },
            ],
            trains: seq![
                TrainView { name: "T"@, capacity: 5, initial_station: "A"@ },
            ],
        }),
{
    let mut stations: Vec<Station> = Vec::new();
    stations.push(station("A"));
    stations.push(station("B"));
    stations.push(station("C"));
    let mut routes: Vec<Route> = Vec::new();
    routes.push(route("AB", "A", "B", 10));
    let mut packages: Vec<Package> = Vec::new();
    packages.push(package("P", 5, "A", "B"));
    let mut trains: Vec<Train> = Vec::new();
    trains.push(train("T", 5, "A"));
    let network = Network { stations, routes, packages, trains };
    proof {
        let v = network@;
        assert(v.stations =~= seq!["A"@, "B"@, "C"@]);
        assert(v.routes =~= seq![
            RouteView { name: "AB"@, from: "A"@, to: "B"@, travel_time: 10 },
        ]);
        assert(v.packages =~= seq![
            PackageView { name: "P"@, weight: 5, from: "A"@, to: "B"@ },
        ]);
        assert(v.trains =~= seq![
            TrainView { name: "T"@, capacity: 5, initial_station: "A"@ },
        ]);
    }
    network
}

/// Five stations in a row, a train in the middle and a package to either
/// side of it.
///
/// ```text
///   10   50   40   10
/// A----B----C----D----E
/// ```
pub fn diverge() -> (n: Network)
    ensures
        n@ == (NetworkView {
            stations: seq!["A"@, "B"@, "C"@, "D"@, "E"@],
            routes: seq![
                RouteView { name: "AB"@, from: "A"@, to: "B"@, travel_time: 10 },
                RouteView { name: "BC"@, from: "B"@, to: "C"@, travel_time: 50 },
                RouteView { name: "CD"@, from: "C"@, to: "D"@, travel_time: 40 },
                RouteView { name: "DE"@, from: "D"@, to: "E"@, travel_time: 10 },
            ],
            packages: seq![
                PackageView { name: "P1"@, weight: 5, from: "B"@, to: "A"@ },
                PackageView { name: "P2"@, weight: 5, from: "D"@, to: "E"@ },
            ],
            trains: seq![
                TrainView { name: "T"@, capacity: 10, initial_station: "C"@ },
            ],
        }),
{
    let mut stations: Vec<Station> = Vec::new();
    stations.push(station("A"));
    stations.push(station("B"));
    stations.push(station("C"));
    stations.push(station("D"));
    stations.push(station("E"));
    let mut routes: Vec<Route> = Vec::new();
    routes.push(route("AB", "A", "B", 10));
    routes.push(route("BC", "B", "C", 50));
    routes.push(route("CD", "C", "D", 40));
    routes.push(route("DE", "D", "E", 10));
    let mut packages: Vec<Package> = Vec::new();
    packages.push(package("P1", 5, "B", "A"));
    packages.push(package("P2", 5, "D", "E"));
    let mut trains: Vec<Train> = Vec::new();
    trains.push(train("T", 10, "C"));
    let network = Network { stations, routes, packages, trains };
    proof {
        let v = network@;
        assert(v.stations =~= seq!["A"@, "B"@, "C"@, "D"@, "E"@]);
        assert(v.routes =~= seq![
            RouteView { name: "AB"@, from: "A"@, to: "B"@, travel_time: 10 },
            RouteView { name: "BC"@, from: "B"@, to: "C"@, travel_time: 50 },
            RouteView { name: "CD"@, from: "C"@, to: "D"@, travel_time: 40 },
            RouteView { name: "DE"@, from: "D"@, to: "E"@, travel_time: 10 },
        ]);
        assert(v.packages =~= seq![
            PackageView { name: "P1"@, weight: 5, from: "B"@, to: "A"@ },
            PackageView { name: "P2"@, weight: 5, from: "D"@, to: "E"@ },
        ]);
        assert(v.trains =~= seq![
            TrainView { name: "T"@, capacity: 10, initial_station: "C"@ },
        ]);
    }
    network
}

/// Two packages to carry the same way, and a train that holds one of
/// them at a time.
///
/// ```text
///   10
/// A----B
/// ```
pub fn multiple_packages_small_train() -> (n: Network)
    ensures
        n@ == (NetworkView {
            stations: seq!["A"@, "B"@],
            routes: seq![
                RouteView { name: "AB"@, from: "A"@, to: "B"@, travel_time: 10 },
            ],
            packages: seq![
                PackageView { name: "P1"@, weight: 5, from: "A"@, to: "B"@ },
                PackageView { name: "P2"@, weight: 5, from: "A"@, to: "B"@ },
            ],
            trains: seq![
                TrainView { name: "T"@, capacity: 5, initial_station: "A"@ },
            ],
        }),
{
    let mut stations: Vec<Station> = Vec::new();
    stations.push(station("A"));
    stations.push(station("B"));
    let mut routes: Vec<Route> = Vec::new();
    routes.push(route("AB", "A", "B", 10));
    let mut packages: Vec<Package> = Vec::new();
    packages.push(package("P1", 5, "A", "B"));
    packages.push(package("P2", 5, "A", "B"));
    let mut trains: Vec<Train> = Vec::new();
    trains.push(train("T", 5, "A"));
    let network = Network { stations, routes, packages, trains };
    proof {
        let v = network@;
        assert(v.stations =~= seq!["A"@, "B"@]);
        assert(v.routes =~= seq![
            RouteView { name: "AB"@, from: "A"@, to: "B"@, travel_time: 10 },
        ]);
        assert(v.packages =~= seq![
            PackageView { name: "P1"@, weight: 5, from: "A"@, to: "B"@ },
            PackageView { name: "P2"@, weight: 5, from: "A"@, to: "B"@ },
        ]);
        assert(v.trains =~= seq![
            TrainView { name: "T"@, capacity: 5, initial_station: "A"@ },
        ]);
    }
    network
}

/// Two packages to carry the same way, and a train that holds both.
///
/// ```text
///   10
/// A----B
/// ```
pub fn multiple_packages_big_train() -> (n: Network)
    ensures
        n@ == (NetworkView {
            stations: seq!["A"@, "B"@],
            routes: seq![
                RouteView { name: "AB"@, from: "A"@, to: "B"@, travel_time: 10 },
            ],
            packages: seq![
                PackageView { name: "P1"@, weight: 5, from: "A"@, to: "B"@ },
                PackageView { name: "P2"@, weight: 5, from: "A"@, to: "B"@ },
            ],
            trains: seq![
                TrainView { name: "T"@, capacity: 10, initial_station: "A"@ },
            ],
        }),
{
    let mut stations: Vec<Station> = Vec::new();
    stations.push(station("A"));
    stations.push(station("B"));
    let mut routes: Vec<Route> = Vec::new();
    routes.push(route("AB", "A", "B", 10));
    let mut packages: Vec<Package> = Vec::new();
    packages.push(package("P1", 5, "A", "B"));
    packages.push(package("P2", 5, "A", "B"));
    let mut trains: Vec<Train> = Vec::new();
    trains.push(train("T", 10, "A"));
    let network = Network { stations, routes, packages, trains };
    proof {
        let v = network@;
        assert(v.stations =~= seq!["A"@, "B"@]);
        assert(v.routes =~= seq![
            RouteView { name: "AB"@, from: "A"@, to: "B"@, travel_time: 10 },
        ]);
        assert(v.packages =~= seq![
            PackageView { name: "P1"@, weight: 5, from: "A"@, to: "B"@ },
            PackageView { name: "P2"@, weight: 5, from: "A"@, to: "B"@ },
        ]);
        assert(v.trains =~= seq![
            TrainView { name: "T"@, capacity: 10, initial_station: "A"@ },
        ]);
    }
    network
}

/// Two pairs of stations without a route between the pairs, each with a
/// train and a package of its own.
///
/// ```text
///    10
/// A1----B1
///
/// A2----B2
///    20
/// ```
pub fn multiple_packages_islands() -> (n: Network)
    ensures
        n@ == (NetworkView {
            stations: seq!["A1"@, "B1"@, "A2"@, "B2"@],
            routes: seq![
                RouteView { name: "AB1"@, from: "A1"@, to: "B1"@, travel_time: 10 },
                RouteView { name: "AB2"@, from: "A2"@, to: "B2"@, travel_time: 20 },
            ],
            packages: seq![
                PackageView { name: "P1"@, weight: 5, from: "A1"@, to: "B1"@ },
                PackageView { name: "P2"@, weight: 5, from: "A2"@, to: "B2"@ },
            ],
            trains: seq![
                TrainView { name: "T1"@, capacity: 5, initial_station: "A1"@ },
                TrainView { name: "T2"@, capacity: 5, initial_station: "A2"@ },
            ],
        }),
{
    let mut stations: Vec<Station> = Vec::new();
    stations.push(station("A1"));
    stations.push(station("B1"));
    stations.push(station("A2"));
    stations.push(station("B2"));
    let mut routes: Vec<Route> = Vec::new();
    routes.push(route("AB1", "A1", "B1", 10));
    routes.push(route("AB2", "A2", "B2", 20));
    let mut packages: Vec<Package> = Vec::new();
    packages.push(package("P1", 5, "A1", "B1"));
    packages.push(package("P2", 5, "A2", "B2"));
    let mut trains: Vec<Train> = Vec::new();
    trains.push(train("T1", 5, "A1"));
    trains.push(train("T2", 5, "A2"));
    let network = Network { stations, routes, packages, trains };
    proof {
        let v = network@;
        assert(v.stations =~= seq!["A1"@, "B1"@, "A2"@, "B2"@]);
        assert(v.routes =~= seq![
            RouteView { name: "AB1"@, from: "A1"@, to: "B1"@, travel_time: 10 },
            RouteView { name: "AB2"@, from: "A2"@, to: "B2"@, travel_time: 20 },
        ]);
        assert(v.packages =~= seq![
            PackageView { name: "P1"@, weight: 5, from: "A1"@, to: "B1"@ },
            PackageView { name: "P2"@, weight: 5, from: "A2"@, to: "B2"@ },
        ]);
        assert(v.trains =~= seq![
            TrainView { name: "T1"@, capacity: 5, initial_station: "A1"@ },
            TrainView { name: "T2"@, capacity: 5, initial_station: "A2"@ },
        ]);
    }
    network
}

} // verus!
