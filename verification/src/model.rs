//! The network with every station name resolved, and the search for the
//! plan with the smallest makespan.

use crate::args;
use crate::args::{reverse_mark, reversed, NetworkView, PackageView, RouteView, TrainView};
use crate::error::{Error, ErrorView};
use crate::model::route_path::{is_table_of, path_time, within};
use crate::model::state::{
    action_views, instruction_views, is_initial_state, is_optimal_time, is_plan, plan_cost,
    state_views, Action, ActionView, StateView,
};
use vstd::prelude::*;

pub mod order;
pub mod reach;
pub mod route_path;
pub mod state;

verus! {

/// A network whose routes, packages and trains hold the stations that
/// they name, and whose routes run both ways.
#[derive(Debug)]
pub struct Network {
    pub stations: Vec<Station>,
    pub routes: Vec<Route>,
    pub packages: Vec<Package>,
    pub trains: Vec<Train>,
}

/// A station, known by its name.
#[derive(Debug, PartialEq, Eq, Hash)]
pub struct Station {
    pub name: String,
}

/// A route from one station to another, with the time in minutes that a
/// train takes to travel it.
#[derive(Debug)]
pub struct Route {
    pub name: String,
    pub from_to: (Station, Station),
    pub travel_time: u32,
}

/// A package with its weight, the station where it waits and the
/// station where it has to go.
#[derive(Debug, PartialEq, Eq, Hash)]
pub struct Package {
    pub name: String,
    pub weight: u32,
    pub from_to: (Station, Station),
}

/// A train with the weight that it can hold and the station at which it
/// starts.
#[derive(Debug, PartialEq, Eq, Hash)]
pub struct Train {
    pub name: String,
    pub capacity: u32,
    pub initial_station: Station,
}

/// One move of one train along one route, with the package picked up or
/// dropped off on the way, if any.
#[derive(Debug)]
pub struct Instruction {
    pub begin_at: u32,
    pub train: Train,
    pub route: Route,
    pub picked_package: Option<Package>,
    pub dropped_package: Option<Package>,
}

/// What an instruction is in contracts.
pub struct InstructionView {
    pub begin_at: nat,
    pub train: TrainView,
    pub route: RouteView,
    pub picked_package: Option<PackageView>,
    pub dropped_package: Option<PackageView>,
}

impl View for Station {
    type V = Seq<char>;

    open spec fn view(&self) -> Seq<char> {
        self.name@
    }
}

impl View for Route {
    type V = RouteView;

    open spec fn view(&self) -> RouteView {
        RouteView {
            name: self.name@,
            from: self.from_to.0@,
            to: self.from_to.1@,
            travel_time: self.travel_time as nat,
        }
    }
}

impl View for Package {
    type V = PackageView;

    open spec fn view(&self) -> PackageView {
        PackageView {
            name: self.name@,
            weight: self.weight as nat,
            from: self.from_to.0@,
            to: self.from_to.1@,
        }
    }
}

impl View for Train {
    type V = TrainView;

    open spec fn view(&self) -> TrainView {
        TrainView {
            name: self.name@,
            capacity: self.capacity as nat,
            initial_station: self.initial_station@,
        }
    }
}

impl View for Instruction {
    type V = InstructionView;

    open spec fn view(&self) -> InstructionView {
        InstructionView {
            begin_at: self.begin_at as nat,
            train: self.train@,
            route: self.route@,
            picked_package: match self.picked_package {
                Some(p) => Some(p@),
                None => None,
            },
            dropped_package: match self.dropped_package {
                Some(p) => Some(p@),
                None => None,
            },
        }
    }
}

impl View for Network {
    type V = NetworkView;

    open spec fn view(&self) -> NetworkView {
        NetworkView {
            stations: self.stations@.map_values(|s: Station| s@),
            routes: self.routes@.map_values(|r: Route| r@),
            packages: self.packages@.map_values(|p: Package| p@),
            trains: self.trains@.map_values(|t: Train| t@),
        }
    }
}

impl Clone for Station {
    fn clone(&self) -> (r: Self)
        ensures
            r@ == self@,
    {
        Station { name: self.name.clone() }
    }
}

impl Clone for Route {
    fn clone(&self) -> (r: Self)
        ensures
            r@ == self@,
    {
        Route {
            name: self.name.clone(),
            from_to: (self.from_to.0.clone(), self.from_to.1.clone()),
            travel_time: self.travel_time,
        }
    }
}

impl Clone for Package {
    fn clone(&self) -> (r: Self)
        ensures
            r@ == self@,
    {
        Package {
            name: self.name.clone(),
            weight: self.weight,
            from_to: (self.from_to.0.clone(), self.from_to.1.clone()),
        }
    }
}

impl Clone for Train {
    fn clone(&self) -> (r: Self)
        ensures
            r@ == self@,
    {
        Train {
            name: self.name.clone(),
            capacity: self.capacity,
            initial_station: self.initial_station.clone(),
        }
    }
}

impl Clone for Instruction {
    fn clone(&self) -> (r: Self)
        ensures
            r@ == self@,
    {
        Instruction {
            begin_at: self.begin_at,
            train: self.train.clone(),
            route: self.route.clone(),
            picked_package: match &self.picked_package {
                Some(p) => Some(p.clone()),
                None => None,
            },
            dropped_package: match &self.dropped_package {
                Some(p) => Some(p.clone()),
                None => None,
            },
        }
    }
}

/// A copy of the stations.
pub fn copy_stations(stations: &Vec<Station>) -> (r: Vec<Station>)
    ensures
        r@.map_values(|x: Station| x@) == stations@.map_values(|x: Station| x@),
{
    let mut out: Vec<Station> = Vec::new();
    let mut i: usize = 0;
    while i < stations.len()
        invariant
            i <= stations.len(),
            out.len() == i,
            forall|j: int| 0 <= j < i ==> out[j]@ == stations[j]@,
        decreases stations.len() - i,
    {
        out.push(stations[i].clone());
        i = i + 1;
    }
    assert(out@.map_values(|x: Station| x@) =~= stations@.map_values(|x: Station| x@));
    out
}

/// A copy of the packages.
pub fn copy_packages(packages: &Vec<Package>) -> (r: Vec<Package>)
    ensures
        r@.map_values(|x: Package| x@) == packages@.map_values(|x: Package| x@),
{
    let mut out: Vec<Package> = Vec::new();
    let mut i: usize = 0;
    while i < packages.len()
        invariant
            i <= packages.len(),
            out.len() == i,
            forall|j: int| 0 <= j < i ==> out[j]@ == packages[j]@,
        decreases packages.len() - i,
    {
        out.push(packages[i].clone());
        i = i + 1;
    }
    assert(out@.map_values(|x: Package| x@) =~= packages@.map_values(|x: Package| x@));
    out
}

/// A copy of the trains.
pub fn copy_trains(trains: &Vec<Train>) -> (r: Vec<Train>)
    ensures
        r@.map_values(|x: Train| x@) == trains@.map_values(|x: Train| x@),
{
    let mut out: Vec<Train> = Vec::new();
    let mut i: usize = 0;
    while i < trains.len()
        invariant
            i <= trains.len(),
            out.len() == i,
            forall|j: int| 0 <= j < i ==> out[j]@ == trains[j]@,
        decreases trains.len() - i,
    {
        out.push(trains[i].clone());
        i = i + 1;
    }
    assert(out@.map_values(|x: Train| x@) =~= trains@.map_values(|x: Train| x@));
    out
}

impl Clone for Network {
    fn clone(&self) -> (r: Self)
        ensures
            r@ == self@,
    {
        Network {
            stations: copy_stations(&self.stations),
            routes: crate::model::route_path::copy_routes(&self.routes),
            packages: copy_packages(&self.packages),
            trains: copy_trains(&self.trains),
        }
    }
}

/// Two routes are the same route when they bear the same name: a route and
/// its reverse share their end points and differ in nothing else.
impl PartialEq for Route {
    fn eq(&self, other: &Self) -> (r: bool) {
        self.name == other.name
    }
}

impl vstd::std_specs::cmp::PartialEqSpecImpl for Route {
    open spec fn obeys_eq_spec() -> bool {
        true
    }

    open spec fn eq_spec(&self, other: &Self) -> bool {
        self.name@ == other.name@
    }
}

impl Eq for Route {

}

impl Station {
    /// The station of the given station's name.
    pub fn from(station: args::Station) -> (r: Self)
        ensures
            r@ == station@,
    {
        Station { name: station.name }
    }

    /// Whether two stations bear the same name.
    pub fn same(&self, other: &Station) -> (r: bool)
        ensures
            r == (self@ == other@),
    {
        self.name == other.name
    }
}

impl Route {
    /// The station that the route leaves.
    pub fn from(&self) -> (r: &Station)
        ensures
            r@ == self@.from,
    {
        &self.from_to.0
    }

    /// The station that the route leads to.
    pub fn to(&self) -> (r: &Station)
        ensures
            r@ == self@.to,
    {
        &self.from_to.1
    }

    /// Whether the route leaves the station.
    pub fn is_from(&self, station: &Station) -> (r: bool)
        ensures
            r == (self@.from == station@),
    {
        self.from().name == station.name
    }

    /// Whether the route leads to the station.
    pub fn is_to(&self, station: &Station) -> (r: bool)
        ensures
            r == (self@.to == station@),
    {
        self.to().name == station.name
    }
}

impl Package {
    /// The station where the package waits.
    pub fn from(&self) -> (r: &Station)
        ensures
            r@ == self@.from,
    {
        &self.from_to.0
    }

    /// The station where the package has to go.
    pub fn to(&self) -> (r: &Station)
        ensures
            r@ == self@.to,
    {
        &self.from_to.1
    }

    /// Whether two packages agree in name, weight and both stations.
    pub fn same(&self, other: &Package) -> (r: bool)
        ensures
            r == (self@ == other@),
    {
        self.name == other.name && self.weight == other.weight && self.from_to.0.same(
            &other.from_to.0,
        ) && self.from_to.1.same(&other.from_to.1)
    }
}

impl Train {
    /// Whether two trains agree in name, capacity and initial station.
    pub fn same(&self, other: &Train) -> (r: bool)
        ensures
            r == (self@ == other@),
    {
        self.name == other.name && self.capacity == other.capacity && self.initial_station.same(
            &other.initial_station,
        )
    }
}

/// The first of `refs` that is not among `names`, if there is one.
pub open spec fn first_unknown(names: Seq<Seq<char>>, refs: Seq<Seq<char>>) -> Option<Seq<char>>
    decreases refs.len(),
{
    if refs.len() == 0 {
        None
    } else if !names.contains(refs[0]) {
        Some(refs[0])
    } else {
        first_unknown(names, refs.skip(1))
    }
}

/// The station of the given name, if it is among `stations`.
pub fn find_station(stations: &[Station], station_name: String) -> (r: Result<Station, Error>)
    ensures
        match r {
            Ok(s) => s@ == station_name@ && stations@.map_values(|s: Station| s@).contains(
                station_name@,
            ),
            Err(e) => e@ == ErrorView::UnknownStation(station_name@) && !stations@.map_values(
                |s: Station| s@,
            ).contains(station_name@),
        },
{
    let ghost names = stations@.map_values(|s: Station| s@);
    let mut i: usize = 0;
    while i < stations.len()
        invariant
            i <= stations.len(),
            names == stations@.map_values(|s: Station| s@),
            forall|j: int| 0 <= j < i ==> names[j] != station_name@,
        decreases stations.len() - i,
    {
        if stations[i].name == station_name {
            assert(names[i as int] == station_name@);
            return Ok(stations[i].clone());
        }
        i = i + 1;
    }
    Err(Error::UnknownStation(station_name))
}

/// The first unknown name of two lists, one after the other, is that of
/// the first list if it has one, else that of the second.
pub proof fn lemma_first_unknown_add(
    names: Seq<Seq<char>>,
    a: Seq<Seq<char>>,
    b: Seq<Seq<char>>,
)
    ensures
        first_unknown(names, a + b) == if first_unknown(names, a) is Some {
            first_unknown(names, a)
        } else {
            first_unknown(names, b)
        },
    decreases a.len(),
{
    if a.len() == 0 {
        assert(a + b =~= b);
    } else {
        assert((a + b)[0] == a[0]);
        assert((a + b).skip(1) =~= a.skip(1) + b);
        lemma_first_unknown_add(names, a.skip(1), b);
    }
}

/// The first unknown name of two names.
pub proof fn lemma_first_unknown_pair(names: Seq<Seq<char>>, a: Seq<char>, b: Seq<char>)
    ensures
        first_unknown(names, seq![a, b]) == if !names.contains(a) {
            Some(a)
        } else if !names.contains(b) {
            Some(b)
        } else {
            None
        },
{
    let both = seq![a, b];
    assert(both.skip(1) =~= seq![b]);
    assert(seq![b].skip(1) =~= Seq::<Seq<char>>::empty());
    assert(first_unknown(names, seq![b].skip(1)) is None);
    assert(first_unknown(names, seq![b]) == if !names.contains(b) {
        Some(b)
    } else {
        None
    });
}

/// The first unknown name of one name.
pub proof fn lemma_first_unknown_one(names: Seq<Seq<char>>, a: Seq<char>)
    ensures
        first_unknown(names, seq![a]) == if !names.contains(a) {
            Some(a)
        } else {
            None
        },
{
    assert(seq![a].skip(1) =~= Seq::<Seq<char>>::empty());
    assert(first_unknown(names, seq![a].skip(1)) is None);
}

impl Route {
    /// The route with its two stations looked up in the station list.
    pub fn try_from(route: args::Route, stations: &[Station]) -> (r: Result<Self, Error>)
        ensures
            match r {
                Ok(x) => x@ == route@ && first_unknown(
                    stations@.map_values(|s: Station| s@),
                    seq![route@.from, route@.to],
                ) is None,
                Err(e) => Some(e@) == match first_unknown(
                    stations@.map_values(|s: Station| s@),
                    seq![route@.from, route@.to],
                ) {
                    Some(n) => Some(ErrorView::UnknownStation(n)),
                    None => None,
                },
            },
    {
        proof {
            lemma_first_unknown_pair(
                stations@.map_values(|s: Station| s@),
                route@.from,
                route@.to,
            );
        }
        let from = match find_station(stations, route.from_to.0) {
            Ok(s) => s,
            Err(e) => {
                return Err(e);
            },
        };
        let to = match find_station(stations, route.from_to.1) {
            Ok(s) => s,
            Err(e) => {
                return Err(e);
            },
        };
        Ok(Route { name: route.name, from_to: (from, to), travel_time: route.travel_time })
    }
}

impl Package {
    /// The package with its two stations looked up in the station list.
    pub fn try_from(package: args::Package, stations: &[Station]) -> (r: Result<Self, Error>)
        ensures
            match r {
                Ok(x) => x@ == package@ && first_unknown(
                    stations@.map_values(|s: Station| s@),
                    seq![package@.from, package@.to],
                ) is None,
                Err(e) => Some(e@) == match first_unknown(
                    stations@.map_values(|s: Station| s@),
                    seq![package@.from, package@.to],
                ) {
                    Some(n) => Some(ErrorView::UnknownStation(n)),
                    None => None,
                },
            },
    {
        proof {
            lemma_first_unknown_pair(
                stations@.map_values(|s: Station| s@),
                package@.from,
                package@.to,
            );
        }
        let from = match find_station(stations, package.from_to.0) {
            Ok(s) => s,
            Err(e) => {
                return Err(e);
            },
        };
        let to = match find_station(stations, package.from_to.1) {
            Ok(s) => s,
            Err(e) => {
                return Err(e);
            },
        };
        Ok(Package { name: package.name, weight: package.weight, from_to: (from, to) })
    }
}

impl Train {
    /// The train with its station looked up in the station list.
    pub fn try_from(train: args::Train, stations: &[Station]) -> (r: Result<Self, Error>)
        ensures
            match r {
                Ok(x) => x@ == train@ && stations@.map_values(|s: Station| s@).contains(
                    train@.initial_station,
                ),
                Err(e) => e@ == ErrorView::UnknownStation(train@.initial_station)
                    && !stations@.map_values(|s: Station| s@).contains(train@.initial_station),
            },
    {
        let initial_station = match find_station(stations, train.initial_station_name) {
            Ok(s) => s,
            Err(e) => {
                return Err(e);
            },
        };
        Ok(Train { name: train.name, capacity: train.capacity, initial_station })
    }
}

/// The station names that the routes refer to, in the order in which
/// they are looked up: for each route its far end, then its near end.
pub open spec fn route_refs(routes: Seq<RouteView>) -> Seq<Seq<char>>
    decreases routes.len(),
{
    if routes.len() == 0 {
        Seq::empty()
    } else {
        route_refs(routes.drop_last()) + seq![routes.last().to, routes.last().from]
    }
}

/// The station names that the packages refer to: for each package where
/// it waits, then where it has to go.
pub open spec fn package_refs(packages: Seq<PackageView>) -> Seq<Seq<char>>
    decreases packages.len(),
{
    if packages.len() == 0 {
        Seq::empty()
    } else {
        package_refs(packages.drop_last()) + seq![packages.last().from, packages.last().to]
    }
}

/// The station names that the trains refer to: where each train starts.
pub open spec fn train_refs(trains: Seq<TrainView>) -> Seq<Seq<char>> {
    trains.map_values(|t: TrainView| t.initial_station)
}

/// All station names that a network refers to, in the order in which
/// they are looked up.
pub open spec fn references(net: NetworkView) -> Seq<Seq<char>> {
    route_refs(net.routes) + package_refs(net.packages) + train_refs(net.trains)
}

/// The names of the routes.
pub open spec fn route_names(routes: Seq<RouteView>) -> Seq<Seq<char>> {
    routes.map_values(|r: RouteView| r.name)
}

/// The mark of a reversed route, `k` times over.
pub open spec fn marks(k: nat) -> Seq<char>
    decreases k,
{
    if k == 0 {
        Seq::empty()
    } else {
        marks((k - 1) as nat) + reverse_mark()
    }
}

/// Whether one of `names`, marked as a reverse and followed by `extra`,
/// is one of `names` again.
pub open spec fn clashes_with(names: Seq<Seq<char>>, extra: Seq<char>) -> bool {
    exists|i: int|
        0 <= i < names.len() && names.contains((#[trigger] names[i]) + reverse_mark() + extra)
}

/// Whether one of `names`, marked as a reverse and with `k` more marks,
/// is one of `names` again.
pub open spec fn clashes(names: Seq<Seq<char>>, k: nat) -> bool {
    clashes_with(names, marks(k))
}

/// Whether `k` is the smallest number of marks, beyond the one that
/// every reverse bears, with which no reverse bears one of `names`.
pub open spec fn is_spare(names: Seq<Seq<char>>, k: nat) -> bool {
    &&& !clashes(names, k)
    &&& forall|j: nat| j < k ==> #[trigger] clashes(names, j)
}

/// The smallest number of marks, beyond the one that every reverse
/// bears, with which no reverse bears one of `names`: none where no name
/// ends in the mark of a reverse of another.
pub open spec fn spare_marks(names: Seq<Seq<char>>) -> nat {
    choose|k: nat| is_spare(names, k)
}

/// The reverse of route `r` among `routes`: end points swapped, same
/// travel time, and a name that none of `routes` bears: the name of `r`,
/// the mark of a reverse, and the spare marks of the names of `routes`.
pub open spec fn reverse_in(routes: Seq<RouteView>, r: RouteView) -> RouteView {
    RouteView {
        name: reversed(r).name + marks(spare_marks(route_names(routes))),
        from: r.to,
        to: r.from,
        travel_time: r.travel_time,
    }
}

/// The reverses of the routes, in their order.
pub open spec fn reverses(routes: Seq<RouteView>) -> Seq<RouteView> {
    Seq::new(routes.len(), |i: int| reverse_in(routes, routes[i]))
}

/// The network with each route doubled: the reverses of all routes, then
/// the routes themselves.
pub open spec fn with_reverses(net: NetworkView) -> NetworkView {
    NetworkView {
        stations: net.stations,
        routes: reverses(net.routes) + net.routes,
        packages: net.packages,
        trains: net.trains,
    }
}

/// Whether no two of the routes bear the same name.
pub open spec fn has_distinct_names(routes: Seq<RouteView>) -> bool {
    forall|i: int, j: int|
        0 <= i < routes.len() && 0 <= j < routes.len() && i != j ==> (#[trigger] routes[i]).name
            != (#[trigger] routes[j]).name
}

/// The length of the longest of the names; 0 for no name.
pub open spec fn longest(names: Seq<Seq<char>>) -> nat
    decreases names.len(),
{
    if names.len() == 0 {
        0
    } else {
        let rest = longest(names.drop_last());
        if names.last().len() > rest {
            names.last().len()
        } else {
            rest
        }
    }
}

/// No name is longer than the longest.
pub proof fn lemma_longest(names: Seq<Seq<char>>, x: Seq<char>)
    requires
        names.contains(x),
    ensures
        x.len() <= longest(names),
    decreases names.len(),
{
    let i = choose|i: int| 0 <= i < names.len() && names[i] == x;
    if i < names.len() - 1 {
        assert(names.drop_last()[i] == x);
        lemma_longest(names.drop_last(), x);
    }
}

/// A mark has four characters.
pub proof fn lemma_marks_len(k: nat)
    ensures
        marks(k).len() == 4 * k,
    decreases k,
{
    if k > 0 {
        lemma_marks_len((k - 1) as nat);
    }
}

/// With so many marks that a reverse's name is longer than every name,
/// no reverse bears one of the names.
pub proof fn lemma_clash_is_short(names: Seq<Seq<char>>, k: nat)
    requires
        clashes(names, k),
    ensures
        4 * k + 4 <= longest(names),
{
    let i = choose|i: int|
        0 <= i < names.len() && names.contains((#[trigger] names[i]) + reverse_mark() + marks(k));
    lemma_longest(names, names[i] + reverse_mark() + marks(k));
    lemma_marks_len(k);
}

/// There is a number of spare marks: counting up from `k`, one comes to
/// a number with which no reverse bears one of the names.
pub proof fn lemma_spare_from(names: Seq<Seq<char>>, k: nat) -> (found: nat)
    requires
        forall|j: nat| j < k ==> #[trigger] clashes(names, j),
    ensures
        is_spare(names, found),
    decreases longest(names) - 4 * k,
{
    if clashes(names, k) {
        lemma_clash_is_short(names, k);
        lemma_spare_from(names, k + 1)
    } else {
        k
    }
}

/// The number of spare marks is the one number that is the smallest with
/// which no reverse bears one of the names.
pub proof fn lemma_spare_marks(names: Seq<Seq<char>>, k: nat)
    requires
        is_spare(names, k),
    ensures
        spare_marks(names) == k,
{
    let chosen = spare_marks(names);
    assert(is_spare(names, chosen));
    if chosen < k {
        assert(clashes(names, chosen));
    }
    if k < chosen {
        assert(clashes(names, k));
    }
}

/// No reverse bears the name of a route of the input, and where no two
/// routes of the input bear the same name, no two routes of the network
/// that is made of it do.
pub proof fn lemma_reverse_names(net: NetworkView)
    ensures
        forall|i: int, j: int|
            0 <= i < net.routes.len() && 0 <= j < net.routes.len() ==> (
            #[trigger] reverses(net.routes)[i]).name != (#[trigger] net.routes[j]).name,
        has_distinct_names(net.routes) ==> has_distinct_names(with_reverses(net).routes),
{
    let routes = net.routes;
    let names = route_names(routes);
    let k = lemma_spare_from(names, 0);
    lemma_spare_marks(names, k);
    let back = reverses(routes);
    assert forall|i: int, j: int| 0 <= i < routes.len() && 0 <= j < routes.len() implies (
    #[trigger] back[i]).name != (#[trigger] routes[j]).name by {
        if back[i].name == routes[j].name {
            assert(names[j] == routes[j].name);
            assert(names[i] + reverse_mark() + marks(k) == back[i].name);
            assert(names.contains(names[i] + reverse_mark() + marks(k)));
            assert(clashes(names, k));
        }
    }
    if has_distinct_names(routes) {
        let all = with_reverses(net).routes;
        let n = routes.len() as int;
        assert forall|i: int, j: int| 0 <= i < all.len() && 0 <= j < all.len() && i != j implies (
        #[trigger] all[i]).name != (#[trigger] all[j]).name by {
            if i < n && j < n {
                let tail = reverse_mark() + marks(k);
                assert(back[i].name =~= routes[i].name + tail);
                assert(back[j].name =~= routes[j].name + tail);
                if back[i].name == back[j].name {
                    assert(routes[i].name.len() == routes[j].name.len());
                    assert forall|t: int| 0 <= t < routes[i].name.len() implies routes[i].name[t]
                        == routes[j].name[t] by {
                        assert((routes[i].name + tail)[t] == routes[i].name[t]);
                        assert((routes[j].name + tail)[t] == routes[j].name[t]);
                    }
                    assert(routes[i].name =~= routes[j].name);
                }
            } else if i < n {
                assert(all[i] == back[i] && all[j] == routes[j - n]);
            } else if j < n {
                assert(all[j] == back[j] && all[i] == routes[i - n]);
            } else {
                assert(all[i] == routes[i - n] && all[j] == routes[j - n]);
            }
        }
    }
}

/// Whether one of the routes bears the name.
pub fn has_route_named(routes: &Vec<args::Route>, name: &String) -> (r: bool)
    ensures
        r == route_names(routes@.map_values(|x: args::Route| x@)).contains(name@),
{
    let ghost names = route_names(routes@.map_values(|x: args::Route| x@));
    let mut i: usize = 0;
    while i < routes.len()
        invariant
            i <= routes.len(),
            names == route_names(routes@.map_values(|x: args::Route| x@)),
            forall|k: int| 0 <= k < i ==> names[k] != name@,
        decreases routes.len() - i,
    {
        assert(names[i as int] == routes[i as int].name@);
        if routes[i].name == *name {
            return true;
        }
        i = i + 1;
    }
    false
}

/// Whether the reverse of one of the routes, with `extra` after its
/// name, bears the name of one of the routes.
pub fn reverses_clash(routes: &Vec<args::Route>, extra: &String) -> (r: bool)
    ensures
        r == clashes_with(route_names(routes@.map_values(|x: args::Route| x@)), extra@),
{
    let ghost names = route_names(routes@.map_values(|x: args::Route| x@));
    let mut i: usize = 0;
    while i < routes.len()
        invariant
            i <= routes.len(),
            names == route_names(routes@.map_values(|x: args::Route| x@)),
            forall|k: int|
                0 <= k < i ==> !names.contains((#[trigger] names[k]) + reverse_mark() + extra@),
        decreases routes.len() - i,
    {
        assert(names[i as int] == routes[i as int].name@);
        let name = routes[i].reverse().name.concat(extra.as_str());
        if has_route_named(routes, &name) {
            return true;
        }
        i = i + 1;
    }
    false
}

/// The marks that the names of the reverses of the routes bear beyond
/// the first, so that none of them is the name of one of the routes.
pub fn spare_marks_text(routes: &Vec<args::Route>) -> (r: String)
    ensures
        r@ == marks(spare_marks(route_names(routes@.map_values(|x: args::Route| x@)))),
{
    let ghost names = route_names(routes@.map_values(|x: args::Route| x@));
    let ghost mut k: nat = 0;
    let mut extra = String::new();
    proof {
        reveal_strlit("#rev");
        assert("#rev"@ =~= reverse_mark());
        assert(extra@ =~= marks(0));
    }
    while reverses_clash(routes, &extra)
        invariant
            names == route_names(routes@.map_values(|x: args::Route| x@)),
            extra@ == marks(k),
            "#rev"@ == reverse_mark(),
            forall|j: nat| j < k ==> #[trigger] clashes(names, j),
        decreases longest(names) - 4 * k,
    {
        proof {
            lemma_clash_is_short(names, k);
        }
        extra.append("#rev");
        proof {
            k = k + 1;
        }
    }
    proof {
        lemma_spare_marks(names, k);
    }
    extra
}

/// Whether every station that the network refers to is in its station
/// list.
pub open spec fn is_resolved(net: NetworkView) -> bool {
    &&& forall|i: int|
        0 <= i < net.routes.len() ==> net.stations.contains((#[trigger] net.routes[i]).from)
            && net.stations.contains(net.routes[i].to)
    &&& forall|i: int|
        0 <= i < net.packages.len() ==> net.stations.contains((#[trigger] net.packages[i]).from)
            && net.stations.contains(net.packages[i].to)
    &&& forall|i: int|
        0 <= i < net.trains.len() ==> net.stations.contains(
            (#[trigger] net.trains[i]).initial_station,
        )
}

/// The names that routes refer to are those of the first routes, then
/// those of the others.
pub proof fn lemma_route_refs_split(routes: Seq<RouteView>, k: int)
    requires
        0 <= k <= routes.len(),
    ensures
        route_refs(routes) == route_refs(routes.take(k)) + route_refs(routes.skip(k)),
    decreases routes.len(),
{
    if k == routes.len() {
        assert(routes.take(k) =~= routes);
        assert(route_refs(routes.skip(k)) =~= Seq::<Seq<char>>::empty());
        assert(route_refs(routes) + Seq::<Seq<char>>::empty() =~= route_refs(routes));
    } else {
        lemma_route_refs_split(routes.drop_last(), k);
        assert(routes.drop_last().take(k) =~= routes.take(k));
        assert(routes.drop_last().skip(k) =~= routes.skip(k).drop_last());
        assert(routes.skip(k).last() == routes.last());
        let last = seq![routes.last().to, routes.last().from];
        assert((route_refs(routes.take(k)) + route_refs(routes.skip(k).drop_last())) + last
            =~= route_refs(routes.take(k)) + (route_refs(routes.skip(k).drop_last()) + last));
    }
}

/// The names that packages refer to are those of the first packages,
/// then those of the others.
pub proof fn lemma_package_refs_split(packages: Seq<PackageView>, k: int)
    requires
        0 <= k <= packages.len(),
    ensures
        package_refs(packages) == package_refs(packages.take(k)) + package_refs(packages.skip(k)),
    decreases packages.len(),
{
    if k == packages.len() {
        assert(packages.take(k) =~= packages);
        assert(package_refs(packages.skip(k)) =~= Seq::<Seq<char>>::empty());
        assert(package_refs(packages) + Seq::<Seq<char>>::empty() =~= package_refs(packages));
    } else {
        lemma_package_refs_split(packages.drop_last(), k);
        assert(packages.drop_last().take(k) =~= packages.take(k));
        assert(packages.drop_last().skip(k) =~= packages.skip(k).drop_last());
        assert(packages.skip(k).last() == packages.last());
        let last = seq![packages.last().from, packages.last().to];
        assert((package_refs(packages.take(k)) + package_refs(packages.skip(k).drop_last()))
            + last =~= package_refs(packages.take(k)) + (package_refs(
            packages.skip(k).drop_last(),
        ) + last));
    }
}

impl Network {
    /// The network with every station name looked up in the station list,
    /// and with the reverse of every route beside the route: the routes
    /// are there to be travelled both ways. A reverse bears the name of
    /// its route followed by `#rev`, as many times over as it takes for
    /// no reverse to bear the name of a route of the input.
    pub fn try_from(input: args::Network) -> (r: Result<Self, Error>)
        ensures
            match r {
                Ok(n) => {
                    &&& n@ == with_reverses(input@)
                    &&& is_resolved(n@)
                    &&& first_unknown(input@.stations, references(input@)) is None
                    &&& forall|i: int, j: int|
                        0 <= i < input.routes.len() && 0 <= j < input.routes.len() ==> (
                        #[trigger] n@.routes[i]).name != (#[trigger] input@.routes[j]).name
                    &&& has_distinct_names(input@.routes) ==> has_distinct_names(n@.routes)
                },
                Err(e) => Some(e@) == match first_unknown(input@.stations, references(input@)) {
                    Some(n) => Some(ErrorView::UnknownStation(n)),
                    None => None,
                },
            },
    {
        let ghost net = input@;
        let ghost names = net.stations;
        let mut stations: Vec<Station> = Vec::new();
        let mut i: usize = 0;
        while i < input.stations.len()
            invariant
                i <= input.stations.len(),
                stations.len() == i,
                forall|k: int| 0 <= k < i ==> stations[k]@ == input.stations[k]@,
            decreases input.stations.len() - i,
        {
            stations.push(Station::from(input.stations[i].clone()));
            i = i + 1;
        }
        assert(stations@.map_values(|s: Station| s@) =~= names);

        let extra = spare_marks_text(&input.routes);
        let mut routes: Vec<Route> = Vec::new();
        let mut i: usize = 0;
        while i < input.routes.len()
            invariant
                i <= input.routes.len(),
                net == input@,
                names == net.stations,
                stations@.map_values(|s: Station| s@) == names,
                extra@ == marks(spare_marks(route_names(net.routes))),
                first_unknown(names, route_refs(net.routes.take(i as int))) is None,
                routes.len() == i,
                forall|k: int|
                    0 <= k < i ==> (#[trigger] routes[k])@ == reverse_in(net.routes, net.routes[k]),
                forall|k: int|
                    0 <= k < i ==> names.contains((#[trigger] net.routes[k]).from)
                        && names.contains(net.routes[k].to),
            decreases input.routes.len() - i,
        {
            let ghost r = net.routes[i as int];
            assert(r == input.routes[i as int]@);
            proof {
                let done = net.routes.take(i as int);
                let next = net.routes.take(i + 1);
                assert(next.drop_last() =~= done);
                assert(next.last() == r);
                lemma_first_unknown_add(names, route_refs(done), seq![r.to, r.from]);
                lemma_route_refs_split(net.routes, i + 1);
                lemma_first_unknown_add(
                    names,
                    route_refs(next),
                    route_refs(net.routes.skip(i + 1)),
                );
                lemma_first_unknown_add(
                    names,
                    route_refs(net.routes),
                    package_refs(net.packages) + train_refs(net.trains),
                );
                assert(references(net) =~= route_refs(net.routes) + (package_refs(net.packages)
                    + train_refs(net.trains)));
                lemma_first_unknown_pair(names, r.to, r.from);
            }
            let turned = input.routes[i].reverse();
            let back = args::Route {
                name: turned.name.concat(extra.as_str()),
                from_to: turned.from_to,
                travel_time: turned.travel_time,
            };
            assert(back@ == reverse_in(net.routes, r));
            match Route::try_from(back, stations.as_slice()) {
                Ok(route) => {
                    routes.push(route);
                },
                Err(e) => {
                    return Err(e);
                },
            }
            i = i + 1;
        }
        assert(net.routes.take(i as int) =~= net.routes);
        let ghost doubled = reverses(net.routes);
        let mut i: usize = 0;
        assert(net.routes.take(0) =~= Seq::<RouteView>::empty());
        assert(routes@.map_values(|r: Route| r@) =~= doubled + net.routes.take(0));
        while i < input.routes.len()
            invariant
                i <= input.routes.len(),
                net == input@,
                names == net.stations,
                stations@.map_values(|s: Station| s@) == names,
                doubled == reverses(net.routes),
                first_unknown(names, route_refs(net.routes)) is None,
                routes@.map_values(|r: Route| r@) == doubled + net.routes.take(i as int),
                forall|k: int|
                    0 <= k < net.routes.len() ==> names.contains((#[trigger] net.routes[k]).from)
                        && names.contains(net.routes[k].to),
            decreases input.routes.len() - i,
        {
            let ghost r = net.routes[i as int];
            assert(r == input.routes[i as int]@);
            proof {
                lemma_first_unknown_pair(names, r.from, r.to);
            }
            match Route::try_from(input.routes[i].clone(), stations.as_slice()) {
                Ok(route) => {
                    let ghost before = routes@.map_values(|r: Route| r@);
                    routes.push(route);
                    assert(routes@.map_values(|r: Route| r@) =~= before.push(r));
                    assert(doubled + net.routes.take(i + 1) =~= before.push(r));
                },
                Err(e) => {
                    return Err(e);
                },
            }
            i = i + 1;
        }
        assert(net.routes.take(i as int) =~= net.routes);

        let mut packages: Vec<Package> = Vec::new();
        let mut i: usize = 0;
        assert(packages@.map_values(|p: Package| p@) =~= net.packages.take(0));
        while i < input.packages.len()
            invariant
                i <= input.packages.len(),
                net == input@,
                names == net.stations,
                stations@.map_values(|s: Station| s@) == names,
                first_unknown(names, route_refs(net.routes)) is None,
                first_unknown(names, package_refs(net.packages.take(i as int))) is None,
                packages@.map_values(|p: Package| p@) == net.packages.take(i as int),
                forall|k: int|
                    0 <= k < i ==> names.contains((#[trigger] net.packages[k]).from)
                        && names.contains(net.packages[k].to),
            decreases input.packages.len() - i,
        {
            let ghost p = net.packages[i as int];
            assert(p == input.packages[i as int]@);
            proof {
                let done = net.packages.take(i as int);
                let next = net.packages.take(i + 1);
                assert(next.drop_last() =~= done);
                assert(next.last() == p);
                lemma_first_unknown_add(names, package_refs(done), seq![p.from, p.to]);
                lemma_package_refs_split(net.packages, i + 1);
                lemma_first_unknown_add(
                    names,
                    package_refs(next),
                    package_refs(net.packages.skip(i + 1)),
                );
                lemma_first_unknown_add(
                    names,
                    package_refs(net.packages),
                    train_refs(net.trains),
                );
                lemma_first_unknown_add(
                    names,
                    route_refs(net.routes),
                    package_refs(net.packages) + train_refs(net.trains),
                );
                assert(references(net) =~= route_refs(net.routes) + (package_refs(net.packages)
                    + train_refs(net.trains)));
                lemma_first_unknown_pair(names, p.from, p.to);
            }
            match Package::try_from(input.packages[i].clone(), stations.as_slice()) {
                Ok(package) => {
                    let ghost before = packages@.map_values(|p: Package| p@);
                    packages.push(package);
                    assert(packages@.map_values(|p: Package| p@) =~= before.push(p));
                    assert(net.packages.take(i + 1) =~= before.push(p));
                },
                Err(e) => {
                    return Err(e);
                },
            }
            i = i + 1;
        }
        assert(net.packages.take(i as int) =~= net.packages);

        let mut trains: Vec<Train> = Vec::new();
        let mut i: usize = 0;
        assert(trains@.map_values(|t: Train| t@) =~= net.trains.take(0));
        assert(train_refs(net.trains.take(0)) =~= Seq::<Seq<char>>::empty());
        while i < input.trains.len()
            invariant
                i <= input.trains.len(),
                net == input@,
                names == net.stations,
                stations@.map_values(|s: Station| s@) == names,
                first_unknown(names, route_refs(net.routes)) is None,
                first_unknown(names, package_refs(net.packages)) is None,
                first_unknown(names, train_refs(net.trains.take(i as int))) is None,
                trains@.map_values(|t: Train| t@) == net.trains.take(i as int),
                forall|k: int|
                    0 <= k < i ==> names.contains((#[trigger] net.trains[k]).initial_station),
            decreases input.trains.len() - i,
        {
            let ghost t = net.trains[i as int];
            assert(t == input.trains[i as int]@);
            proof {
                let done = train_refs(net.trains.take(i as int));
                let next = train_refs(net.trains.take(i + 1));
                let rest = train_refs(net.trains.skip(i + 1));
                assert(next =~= done + seq![t.initial_station]);
                assert(train_refs(net.trains) =~= next + rest);
                lemma_first_unknown_one(names, t.initial_station);
                lemma_first_unknown_add(names, done, seq![t.initial_station]);
                lemma_first_unknown_add(names, next, rest);
                lemma_first_unknown_add(
                    names,
                    package_refs(net.packages),
                    train_refs(net.trains),
                );
                lemma_first_unknown_add(
                    names,
                    route_refs(net.routes),
                    package_refs(net.packages) + train_refs(net.trains),
                );
                assert(references(net) =~= route_refs(net.routes) + (package_refs(net.packages)
                    + train_refs(net.trains)));
            }
            match Train::try_from(input.trains[i].clone(), stations.as_slice()) {
                Ok(train) => {
                    let ghost before = trains@.map_values(|t: Train| t@);
                    trains.push(train);
                    assert(trains@.map_values(|t: Train| t@) =~= before.push(t));
                    assert(net.trains.take(i + 1) =~= before.push(t));
                },
                Err(e) => {
                    return Err(e);
                },
            }
            i = i + 1;
        }
        proof {
            assert(net.trains.take(i as int) =~= net.trains);
            lemma_first_unknown_add(names, package_refs(net.packages), train_refs(net.trains));
            lemma_first_unknown_add(
                names,
                route_refs(net.routes),
                package_refs(net.packages) + train_refs(net.trains),
            );
            assert(references(net) =~= route_refs(net.routes) + (package_refs(net.packages)
                + train_refs(net.trains)));
        }
        let network = Network { stations, routes, packages, trains };
        proof {
            let out = network@;
            assert(out.routes == reverses(net.routes) + net.routes);
            assert forall|k: int| 0 <= k < out.routes.len() implies out.stations.contains(
                (#[trigger] out.routes[k]).from,
            ) && out.stations.contains(out.routes[k].to) by {
                if k < net.routes.len() {
                    assert(out.routes[k] == reverse_in(net.routes, net.routes[k]));
                } else {
                    assert(out.routes[k] == net.routes[k - net.routes.len()]);
                }
            }
            lemma_reverse_names(net);
            assert forall|i: int, j: int|
                0 <= i < input.routes.len() && 0 <= j < input.routes.len() implies (
            #[trigger] out.routes[i]).name != (#[trigger] net.routes[j]).name by {
                assert(out.routes[i] == reverses(net.routes)[i]);
            }
        }
        Ok(network)
    }
}

/// The actions that the packages ask for: for each package its pick,
/// then its drop.
pub open spec fn required_actions(packages: Seq<PackageView>) -> Seq<ActionView> {
    Seq::new(
        2 * packages.len(),
        |k: int|
            if k % 2 == 0 {
                ActionView::Pick(packages[k / 2], packages[k / 2].from)
            } else {
                ActionView::Drop(packages[k / 2], packages[k / 2].to)
            },
    )
}

impl Package {
    /// The two actions that the package asks for: its pick where it
    /// waits, and its drop where it has to go.
    pub fn actions(&self) -> (r: Vec<Action>)
        ensures
            action_views(r@) == seq![
                ActionView::Pick(self@, self@.from),
                ActionView::Drop(self@, self@.to),
            ],
    {
        let mut out: Vec<Action> = Vec::new();
        out.push(Action::Pick(self.clone(), self.from().clone()));
        out.push(Action::Drop(self.clone(), self.to().clone()));
        assert(action_views(out@) =~= seq![
            ActionView::Pick(self@, self@.from),
            ActionView::Drop(self@, self@.to),
        ]);
        out
    }
}

impl Network {
    /// Whether all times that planning adds up fit a `u32`: the travel
    /// times of all routes together, once for each action and once more.
    pub open spec fn within_limits(&self) -> bool {
        path_time(self@.routes) * (2 * self.packages.len() + 1) <= u32::MAX
    }

    /// Whether the network can be planned for: its stations are known,
    /// and its times fit.
    pub open spec fn wf(&self) -> bool {
        is_resolved(self@) && self.within_limits()
    }

    /// Whether the times of the network fit.
    pub fn is_within_limits(&self) -> (r: bool)
        ensures
            r == self.within_limits(),
    {
        let ghost g = self@.routes;
        let mut total: u64 = 0;
        let mut i: usize = 0;
        while i < self.routes.len()
            invariant
                i <= self.routes.len(),
                g == self@.routes,
                g.len() == self.routes.len(),
                total == path_time(g.take(i as int)),
                total <= u32::MAX,
            decreases self.routes.len() - i,
        {
            proof {
                assert(g.take(i + 1).drop_last() =~= g.take(i as int));
                crate::model::route_path::lemma_path_time_prefix(g, i + 1);
            }
            total = total + self.routes[i].travel_time as u64;
            if total > u32::MAX as u64 {
                assert(path_time(g) * (2 * self.packages.len() + 1) > u32::MAX) by (nonlinear_arith)
                    requires
                        path_time(g) > u32::MAX,
                ;
                return false;
            }
            i = i + 1;
        }
        assert(g.take(i as int) =~= g);
        let n = self.packages.len();
        if n > 0x8000_0000 {
            if total == 0 {
                assert(path_time(g) * (2 * n + 1) == 0) by (nonlinear_arith)
                    requires
                        path_time(g) == 0,
                ;
                return true;
            }
            assert(path_time(g) * (2 * n + 1) > u32::MAX) by (nonlinear_arith)
                requires
                    path_time(g) >= 1,
                    n > 0x8000_0000,
            ;
            return false;
        }
        let factor: u64 = 2 * (n as u64) + 1;
        assert(total * factor <= 0xffff_ffff_ffff_ffff) by (nonlinear_arith)
            requires
                total <= 0xffff_ffff,
                factor <= 0x1_0000_0001,
        ;
        total * factor <= u32::MAX as u64
    }

    /// The actions that have to be taken to deliver every package.
    pub fn actions(&self) -> (r: Vec<Action>)
        ensures
            action_views(r@) == required_actions(self@.packages),
    {
        let ghost want = required_actions(self@.packages);
        let mut out: Vec<Action> = Vec::new();
        let mut i: usize = 0;
        while i < self.packages.len()
            invariant
                i <= self.packages.len(),
                want == required_actions(self@.packages),
                out.len() == 2 * i,
                forall|k: int| 0 <= k < 2 * i ==> out[k]@ == want[k],
            decreases self.packages.len() - i,
        {
            let mut pair = self.packages[i].actions();
            let ghost before = out@;
            let ghost added = pair@;
            assert(action_views(added).len() == 2);
            assert(action_views(added)[0] == added[0]@);
            assert(action_views(added)[1] == added[1]@);
            out.append(&mut pair);
            assert(out@ =~= before + added);
            assert(self@.packages[i as int] == self.packages[i as int]@);
            i = i + 1;
        }
        assert(action_views(out@) =~= want);
        out
    }
}

/// A cheapest way from `start` to a state in which the work is done, with
/// its cost, if there is such a way.
///
/// This is `dijkstra` of pathfinding, with `take_available_actions` for
/// the successors of a state and `is_success` for the test of success.
/// The contract claims what its documentation says: the result is a path
/// that begins with `start`, goes from each state to one of its
/// successors and ends in a state that passes the test, together with the
/// sum of the costs of its steps; no such path costs less; and there is
/// no result only where there is no such path. The search adds the costs
/// of steps up and calls the two functions on `start` and on states that
/// `take_available_actions` gave, which is why `start` must be a state
/// that the search may come to.
#[verifier::external_body]
fn dijkstra_from(start: &state::Network) -> (r: Option<(Vec<state::Network>, u32)>)
    requires
        start@.inv(),
    ensures
        match r {
            Some((path, cost)) => {
                &&& is_plan(start@, state_views(path@))
                &&& cost == plan_cost(state_views(path@))
                &&& forall|other: Seq<StateView>| #[trigger]
                    is_plan(start@, other) ==> cost <= plan_cost(other)
            },
            None => forall|other: Seq<StateView>| !#[trigger] is_plan(start@, other),
        },
{
    pathfinding::prelude::dijkstra(
        start,
        |state| state.take_available_actions(),
        |state| state.is_success(),
    )
}

impl Network {
    /// A plan with the smallest makespan, and that makespan: the states
    /// from the one that planning starts from to one in which every
    /// package is delivered. `None` where no plan delivers every package.
    pub fn solve(&self) -> (r: Option<(Vec<state::Network>, u32)>)
        requires
            self.within_limits(),
        ensures
            match r {
                Some((path, cost)) => {
                    &&& path.len() > 0
                    &&& is_initial_state(self@, path[0]@)
                    &&& is_plan(path[0]@, state_views(path@))
                    &&& path[path.len() - 1]@.inv()
                    &&& cost == path[path.len() - 1]@.makespan()
                    &&& forall|other: Seq<StateView>| #[trigger]
                        is_plan(path[0]@, other) ==> cost <= other.last().makespan()
                },
                None => exists|start: StateView|
                    is_initial_state(self@, start) && forall|other: Seq<StateView>| !#[trigger] is_plan(
                        start,
                        other,
                    ),
            },
    {
        let start = state::Network::new(self);
        let found = dijkstra_from(&start);
        proof {
            match &found {
                Some((path, cost)) => {
                    let views = state_views(path@);
                    reach::lemma_plan_cost(start@, views);
                    assert(views[0] == path[0]@);
                    assert(views.last() == path[path.len() - 1]@);
                    assert forall|other: Seq<StateView>| #[trigger]
                        is_plan(path[0]@, other) implies cost <= other.last().makespan() by {
                        reach::lemma_plan_cost(start@, other);
                    }
                },
                None => {},
            }
        }
        found
    }

    /// The smallest makespan with which every package can be delivered.
    pub fn optimal_time_mins(&self) -> (r: Result<u32, Error>)
        requires
            self.within_limits(),
        ensures
            match r {
                Ok(time) => is_optimal_makespan(self@, time as nat),
                Err(e) => e@ == ErrorView::Infeasible && is_infeasible(self@),
            },
    {
        match self.solve() {
            Some((path, cost)) => {
                proof {
                    let views = state_views(path@);
                    assert(views.last() == path[path.len() - 1]@);
                    assert(is_plan(path[0]@, views));
                    assert(is_optimal_time(path[0]@, cost as nat));
                    lemma_optimal_everywhere(self@, path[0]@, cost as nat);
                }
                Ok(cost)
            },
            None => {
                proof {
                    let start = choose|start: StateView|
                        is_initial_state(self@, start) && forall|other: Seq<StateView>| !#[trigger] is_plan(
                            start,
                            other,
                        );
                    lemma_infeasible_everywhere(self@, start);
                }
                Err(Error::Infeasible)
            },
        }
    }

    /// The instructions of a plan with the smallest makespan.
    pub fn optimal_instructions(&self) -> (r: Result<Vec<Instruction>, Error>)
        requires
            self.within_limits(),
        ensures
            match r {
                Ok(instructions) => exists|start: StateView, path: Seq<StateView>|
                    {
                        &&& is_initial_state(self@, start)
                        &&& #[trigger] is_plan(start, path)
                        &&& instruction_views(instructions@) == path.last().instructions()
                        &&& is_optimal_makespan(self@, path.last().makespan())
                    },
                Err(e) => e@ == ErrorView::Infeasible && is_infeasible(self@),
            },
    {
        match self.solve() {
            Some((path, cost)) => {
                let last = &path[path.len() - 1];
                proof {
                    let views = state_views(path@);
                    assert(views.last() == last@);
                    assert(is_plan(path[0]@, views));
                    assert(is_optimal_time(path[0]@, cost as nat));
                    lemma_optimal_everywhere(self@, path[0]@, cost as nat);
                    state::lemma_inv_fits(last@);
                }
                Ok(last.instructions())
            },
            None => {
                proof {
                    let start = choose|start: StateView|
                        is_initial_state(self@, start) && forall|other: Seq<StateView>| !#[trigger] is_plan(
                            start,
                            other,
                        );
                    lemma_infeasible_everywhere(self@, start);
                }
                Err(Error::Infeasible)
            },
        }
    }
}

/// Whether `time` is the smallest makespan with which the packages of the
/// network can be delivered: there is a state that planning starts from,
/// and from each such state `time` is the smallest makespan of the plans.
pub open spec fn is_optimal_makespan(net: NetworkView, time: nat) -> bool {
    &&& exists|start: StateView| is_initial_state(net, start)
    &&& forall|start: StateView| #[trigger]
        is_initial_state(net, start) ==> is_optimal_time(start, time)
}

/// Whether no plan delivers every package of the network: there is a
/// state that planning starts from, and from no such state there is a
/// plan.
pub open spec fn is_infeasible(net: NetworkView) -> bool {
    &&& exists|start: StateView| is_initial_state(net, start)
    &&& forall|start: StateView, path: Seq<StateView>|
        is_initial_state(net, start) ==> !#[trigger] is_plan(start, path)
}

/// The smallest makespan from one state that planning starts from is the
/// smallest makespan from every such state: it does not depend on which
/// of several shortest paths the table holds.
pub proof fn lemma_optimal_everywhere(net: NetworkView, start: StateView, time: nat)
    requires
        is_initial_state(net, start),
        is_optimal_time(start, time),
    ensures
        is_optimal_makespan(net, time),
{
    assert forall|other: StateView| #[trigger] is_initial_state(net, other) implies is_optimal_time(
        other,
        time,
    ) by {
        order::lemma_optimal_for_reordering(net, net, start, other, time);
    }
}

/// Where there is no plan from one state that planning starts from,
/// there is none from any such state.
pub proof fn lemma_infeasible_everywhere(net: NetworkView, start: StateView)
    requires
        is_initial_state(net, start),
        forall|path: Seq<StateView>| !#[trigger] is_plan(start, path),
    ensures
        is_infeasible(net),
{
    assert forall|other: StateView, path: Seq<StateView>|
        is_initial_state(net, other) implies !#[trigger] is_plan(other, path) by {
        order::lemma_order_keeps_infeasible(net, net, start, other);
    }
}

/// The character that writes the digit `d`.
pub open spec fn digit(d: nat) -> char {
    if d == 0 {
        '0'
    } else if d == 1 {
        '1'
    } else if d == 2 {
        '2'
    } else if d == 3 {
        '3'
    } else if d == 4 {
        '4'
    } else if d == 5 {
        '5'
    } else if d == 6 {
        '6'
    } else if d == 7 {
        '7'
    } else if d == 8 {
        '8'
    } else {
        '9'
    }
}

/// The number `n` written in decimal digits, without leading zeros.
pub open spec fn decimal(n: nat) -> Seq<char>
    decreases n,
{
    if n < 10 {
        seq![digit(n)]
    } else {
        decimal(n / 10).push(digit(n % 10))
    }
}

/// The digit `d` as a text of one character.
pub fn digit_text(d: u32) -> (r: &'static str)
    requires
        d < 10,
    ensures
        r@ == seq![digit(d as nat)],
{
    proof {
        reveal_strlit("0");
        reveal_strlit("1");
        reveal_strlit("2");
        reveal_strlit("3");
        reveal_strlit("4");
        reveal_strlit("5");
        reveal_strlit("6");
        reveal_strlit("7");
        reveal_strlit("8");
        reveal_strlit("9");
    }
    let r = if d == 0 {
        "0"
    } else if d == 1 {
        "1"
    } else if d == 2 {
        "2"
    } else if d == 3 {
        "3"
    } else if d == 4 {
        "4"
    } else if d == 5 {
        "5"
    } else if d == 6 {
        "6"
    } else if d == 7 {
        "7"
    } else if d == 8 {
        "8"
    } else {
        "9"
    };
    assert(r@ =~= seq![digit(d as nat)]);
    r
}

/// The number written in decimal digits.
pub fn decimal_text(n: u32) -> (r: String)
    ensures
        r@ == decimal(n as nat),
    decreases n,
{
    if n < 10 {
        String::from_str(digit_text(n))
    } else {
        let r = decimal_text(n / 10).concat(digit_text(n % 10));
        assert(r@ =~= decimal((n / 10) as nat).push(digit((n % 10) as nat)));
        r
    }
}

/// The name of the package in brackets, or empty brackets for none.
pub open spec fn bracketed(package: Option<PackageView>) -> Seq<char> {
    match package {
        Some(p) => "["@ + p.name + "]"@,
        None => "[]"@,
    }
}

/// The line that an instruction is shown as: when it begins, the train,
/// the station it leaves with the package picked up, and the station it
/// comes to with the package dropped off.
pub open spec fn line_of(i: InstructionView) -> Seq<char> {
    "W = "@ + decimal(i.begin_at) + ", T = "@ + i.train.name + ", N1 = "@ + i.route.from
        + ", P1 = "@ + bracketed(i.picked_package) + ", N2 = "@ + i.route.to + ", P2 = "@
        + bracketed(i.dropped_package)
}

/// The name of the package in brackets, or empty brackets for none.
pub fn bracketed_text(package: &Option<Package>) -> (r: String)
    ensures
        r@ == bracketed(
            match package {
                Some(p) => Some(p@),
                None => None,
            },
        ),
{
    match package {
        Some(p) => String::from_str("[").concat(p.name.as_str()).concat("]"),
        None => String::from_str("[]"),
    }
}

impl Instruction {
    /// The line that the instruction is shown as.
    pub fn to_line(&self) -> (r: String)
        ensures
            r@ == line_of(self@),
    {
        let mut line = String::from_str("W = ");
        line.append(decimal_text(self.begin_at).as_str());
        line.append(", T = ");
        line.append(self.train.name.as_str());
        line.append(", N1 = ");
        line.append(self.route.from().name.as_str());
        line.append(", P1 = ");
        line.append(bracketed_text(&self.picked_package).as_str());
        line.append(", N2 = ");
        line.append(self.route.to().name.as_str());
        line.append(", P2 = ");
        line.append(bracketed_text(&self.dropped_package).as_str());
        line
    }
}

/// The line that closes a plan: the time that the plan takes.
pub fn total_line(total: u32) -> (r: String)
    ensures
        r@ == "Total time used: "@ + decimal(total as nat),
{
    String::from_str("Total time used: ").concat(decimal_text(total).as_str())
}

} // verus!
