//! Route paths between stations, and the table that holds a shortest one
//! for every pair of stations that are connected.

use crate::args::{NetworkView, RouteView};
use crate::model::{Network, Route, Station};
use std::collections::HashMap;
use vstd::prelude::*;

verus! {

/// A way from one station to another: the routes to travel, in order.
#[derive(Debug)]
pub struct RoutePath {
    pub station_pair: (Station, Station),
    pub routes: Vec<Route>,
}

/// What a route path is in contracts.
pub struct RoutePathView {
    pub from: Seq<char>,
    pub to: Seq<char>,
    pub routes: Seq<RouteView>,
}

impl View for RoutePath {
    type V = RoutePathView;

    open spec fn view(&self) -> RoutePathView {
        RoutePathView {
            from: self.station_pair.0@,
            to: self.station_pair.1@,
            routes: self.routes@.map_values(|r: Route| r@),
        }
    }
}

/// The time it takes to travel the given routes one after the other.
pub open spec fn path_time(routes: Seq<RouteView>) -> nat
    decreases routes.len(),
{
    if routes.len() == 0 {
        0
    } else {
        path_time(routes.drop_last()) + routes.last().travel_time
    }
}

/// Travelling more routes never takes less time.
pub proof fn lemma_path_time_prefix(routes: Seq<RouteView>, k: int)
    requires
        0 <= k <= routes.len(),
    ensures
        path_time(routes.take(k)) <= path_time(routes),
    decreases routes.len() - k,
{
    if k == routes.len() {
        assert(routes.take(k) =~= routes);
    } else {
        lemma_path_time_prefix(routes, k + 1);
        assert(routes.take(k + 1).drop_last() =~= routes.take(k));
    }
}

/// Whether `routes` lead from `from` to `to`: each starts where the one
/// before it ends.
pub open spec fn is_chain(from: Seq<char>, to: Seq<char>, routes: Seq<RouteView>) -> bool {
    &&& routes.len() > 0
    &&& routes[0].from == from
    &&& routes.last().to == to
    &&& forall|i: int| 0 < i < routes.len() ==> (#[trigger] routes[i]).from == routes[i - 1].to
}

/// A copy of the routes.
pub fn copy_routes(routes: &Vec<Route>) -> (r: Vec<Route>)
    ensures
        r@.map_values(|x: Route| x@) == routes@.map_values(|x: Route| x@),
{
    let mut out: Vec<Route> = Vec::new();
    let mut i: usize = 0;
    while i < routes.len()
        invariant
            i <= routes.len(),
            out.len() == i,
            forall|j: int| 0 <= j < i ==> out[j]@ == routes[j]@,
        decreases routes.len() - i,
    {
        out.push(routes[i].clone());
        i = i + 1;
    }
    assert(out@.map_values(|x: Route| x@) =~= routes@.map_values(|x: Route| x@));
    out
}

impl Clone for RoutePath {
    fn clone(&self) -> (r: Self)
        ensures
            r@ == self@,
    {
        RoutePath {
            station_pair: (self.station_pair.0.clone(), self.station_pair.1.clone()),
            routes: copy_routes(&self.routes),
        }
    }
}

/// The names of the routes.
pub open spec fn names_of(routes: Seq<Route>) -> Seq<Seq<char>> {
    routes.map_values(|r: Route| r.name@)
}

/// Whether the two lists hold routes of the same names in the same
/// order.
pub fn same_routes(a: &Vec<Route>, b: &Vec<Route>) -> (r: bool)
    ensures
        r == (names_of(a@) == names_of(b@)),
{
    if a.len() != b.len() {
        assert(names_of(a@).len() != names_of(b@).len());
        return false;
    }
    let mut i: usize = 0;
    while i < a.len()
        invariant
            i <= a.len(),
            a.len() == b.len(),
            forall|k: int| 0 <= k < i ==> a[k].name@ == b[k].name@,
        decreases a.len() - i,
    {
        if a[i].name != b[i].name {
            assert(names_of(a@)[i as int] != names_of(b@)[i as int]);
            return false;
        }
        i = i + 1;
    }
    assert(names_of(a@) =~= names_of(b@));
    true
}

/// Two route paths are the same path when they lead from the same
/// station to the same station by the same routes; routes are the same
/// when their names are.
impl PartialEq for RoutePath {
    fn eq(&self, other: &Self) -> (r: bool) {
        self.station_pair.0.same(&other.station_pair.0) && self.station_pair.1.same(
            &other.station_pair.1,
        ) && same_routes(&self.routes, &other.routes)
    }
}

impl vstd::std_specs::cmp::PartialEqSpecImpl for RoutePath {
    open spec fn obeys_eq_spec() -> bool {
        true
    }

    open spec fn eq_spec(&self, other: &Self) -> bool {
        &&& self.station_pair.0@ == other.station_pair.0@
        &&& self.station_pair.1@ == other.station_pair.1@
        &&& names_of(self.routes@) == names_of(other.routes@)
    }
}

impl Eq for RoutePath {

}

impl RoutePath {
    /// The time in minutes that it takes to travel the path.
    pub fn total_duration_mins(&self) -> (r: u32)
        requires
            path_time(self@.routes) <= u32::MAX,
        ensures
            r == path_time(self@.routes),
    {
        let ghost routes = self@.routes;
        let mut total: u32 = 0;
        let mut i: usize = 0;
        while i < self.routes.len()
            invariant
                i <= self.routes.len(),
                routes == self@.routes,
                routes.len() == self.routes.len(),
                total == path_time(routes.take(i as int)),
                path_time(routes) <= u32::MAX,
            decreases self.routes.len() - i,
        {
            proof {
                lemma_path_time_prefix(routes, i + 1);
                assert(routes.take(i + 1).drop_last() =~= routes.take(i as int));
            }
            total = total + self.routes[i].travel_time;
            i = i + 1;
        }
        assert(routes.take(i as int) =~= routes);
        total
    }
}

/// The first path of the table that leads from `from` to `to`, if there
/// is one.
pub open spec fn find_path(paths: Seq<RoutePathView>, from: Seq<char>, to: Seq<char>) -> Option<
    RoutePathView,
>
    decreases paths.len(),
{
    if paths.len() == 0 {
        None
    } else if paths[0].from == from && paths[0].to == to {
        Some(paths[0])
    } else {
        find_path(paths.skip(1), from, to)
    }
}

/// A path that is found is one of the table's, and leads where it was
/// asked to.
pub proof fn lemma_find_path_is_entry(paths: Seq<RoutePathView>, from: Seq<char>, to: Seq<char>)
    ensures
        match find_path(paths, from, to) {
            Some(p) => paths.contains(p) && p.from == from && p.to == to,
            None => forall|i: int|
                0 <= i < paths.len() ==> !((#[trigger] paths[i]).from == from && paths[i].to
                    == to),
        },
    decreases paths.len(),
{
    if paths.len() == 0 {
    } else if paths[0].from == from && paths[0].to == to {
    } else {
        lemma_find_path_is_entry(paths.skip(1), from, to);
        match find_path(paths, from, to) {
            Some(p) => {
                let i = choose|i: int| 0 <= i < paths.skip(1).len() && paths.skip(1)[i] == p;
                assert(paths[i + 1] == p);
            },
            None => {
                assert forall|i: int| 0 <= i < paths.len() implies !((#[trigger] paths[i]).from
                    == from && paths[i].to == to) by {
                    if i > 0 {
                        assert(paths.skip(1)[i - 1] == paths[i]);
                    }
                }
            },
        }
    }
}

/// The table of route paths: for a pair of stations, the path to travel
/// from the first to the second. `limit` bounds the time of every path in
/// it.
#[derive(Debug)]
pub struct RouteMap {
    pub paths: Vec<RoutePath>,
    pub limit: u32,
}

impl View for RouteMap {
    type V = Seq<RoutePathView>;

    open spec fn view(&self) -> Seq<RoutePathView> {
        self.paths@.map_values(|p: RoutePath| p@)
    }
}

/// Whether no path of the table takes longer than `limit`.
pub open spec fn within(paths: Seq<RoutePathView>, limit: nat) -> bool {
    forall|i: int| 0 <= i < paths.len() ==> path_time(#[trigger] paths[i].routes) <= limit
}

impl RouteMap {
    /// Whether no path of the table takes longer than its limit.
    pub open spec fn wf(&self) -> bool {
        within(self@, self.limit as nat)
    }

    /// The path from `from` to `to`, if the table has one.
    pub fn get(&self, from: &Station, to: &Station) -> (r: Option<&RoutePath>)
        ensures
            match r {
                Some(p) => find_path(self@, from@, to@) == Some(p@),
                None => find_path(self@, from@, to@) is None,
            },
    {
        let ghost paths = self@;
        let mut i: usize = 0;
        assert(paths.skip(0) =~= paths);
        while i < self.paths.len()
            invariant
                i <= self.paths.len(),
                paths == self@,
                paths.len() == self.paths.len(),
                find_path(paths, from@, to@) == find_path(paths.skip(i as int), from@, to@),
            decreases self.paths.len() - i,
        {
            let p = &self.paths[i];
            assert(paths.skip(i as int)[0] == p@);
            if p.station_pair.0.same(from) && p.station_pair.1.same(to) {
                return Some(p);
            }
            assert(paths.skip(i as int).skip(1) =~= paths.skip(i + 1));
            i = i + 1;
        }
        None
    }
}

/// The views of a list of routes.
pub open spec fn route_views(routes: Seq<Route>) -> Seq<RouteView> {
    routes.map_values(|r: Route| r@)
}

/// The views of a list of stations: their names.
pub open spec fn station_names(stations: Seq<Station>) -> Seq<Seq<char>> {
    stations.map_values(|s: Station| s@)
}

/// Whether `path` leads from `a` to `b` by routes of `g`.
pub open spec fn is_route_path(
    g: Seq<RouteView>,
    a: Seq<char>,
    b: Seq<char>,
    path: Seq<RouteView>,
) -> bool {
    &&& is_chain(a, b, path)
    &&& forall|k: int| 0 <= k < path.len() ==> g.contains(#[trigger] path[k])
}

/// Whether one can travel from `a` to `b` by routes of `g`.
pub open spec fn connected(g: Seq<RouteView>, a: Seq<char>, b: Seq<char>) -> bool {
    exists|path: Seq<RouteView>| is_route_path(g, a, b, path)
}

/// Whether `t` is the shortest time in which one can travel from `a` to
/// `b` by routes of `g`.
pub open spec fn shortest_time(g: Seq<RouteView>, a: Seq<char>, b: Seq<char>, t: nat) -> bool {
    &&& exists|path: Seq<RouteView>| is_route_path(g, a, b, path) && path_time(path) == t
    &&& forall|path: Seq<RouteView>| #[trigger] is_route_path(g, a, b, path) ==> t <= path_time(path)
}

/// The route on which a train stays at station `s`: it takes no time.
pub open spec fn identity_route(s: Seq<char>) -> RouteView {
    RouteView { name: s + seq!['#', 'i', 'd'], from: s, to: s, travel_time: 0 }
}

/// The path from a station to itself.
pub open spec fn identity_path(s: Seq<char>) -> RoutePathView {
    RoutePathView { from: s, to: s, routes: seq![identity_route(s)] }
}

/// Whether route `k` of `g` is the one to travel from `a` to `b` by: it
/// leads from `a` to `b`, no route that does is faster, and none of those
/// before it is as fast.
pub open spec fn is_cheapest(g: Seq<RouteView>, a: Seq<char>, b: Seq<char>, k: int) -> bool {
    &&& 0 <= k < g.len()
    &&& g[k].from == a
    &&& g[k].to == b
    &&& forall|j: int|
        0 <= j < g.len() && (#[trigger] g[j]).from == a && g[j].to == b ==> g[k].travel_time
            <= g[j].travel_time
    &&& forall|j: int|
        0 <= j < k && (#[trigger] g[j]).from == a && g[j].to == b ==> g[k].travel_time
            < g[j].travel_time
}

/// Whether some route of `g` leads from `a` to `b`.
pub open spec fn has_route(g: Seq<RouteView>, a: Seq<char>, b: Seq<char>) -> bool {
    exists|j: int| 0 <= j < g.len() && (#[trigger] g[j]).from == a && g[j].to == b
}

/// The fastest route from one station to another, the first of them if
/// there are several.
pub fn cheapest_route<'a>(all_routes: &'a [Route], from: &Station, to: &Station) -> (r: Option<
    &'a Route,
>)
    ensures
        match r {
            Some(route) => exists|k: int|
                is_cheapest(route_views(all_routes@), from@, to@, k) && route_views(
                    all_routes@,
                )[k] == route@,
            None => !has_route(route_views(all_routes@), from@, to@),
        },
{
    let ghost g = route_views(all_routes@);
    let mut best: Option<usize> = None;
    let mut i: usize = 0;
    while i < all_routes.len()
        invariant
            i <= all_routes.len(),
            g == route_views(all_routes@),
            match best {
                Some(k) => {
                    &&& k < i
                    &&& g[k as int].from == from@
                    &&& g[k as int].to == to@
                    &&& forall|j: int|
                        0 <= j < i && (#[trigger] g[j]).from == from@ && g[j].to == to@
                            ==> g[k as int].travel_time <= g[j].travel_time
                    &&& forall|j: int|
                        0 <= j < k && (#[trigger] g[j]).from == from@ && g[j].to == to@
                            ==> g[k as int].travel_time < g[j].travel_time
                },
                None => forall|j: int|
                    0 <= j < i ==> !((#[trigger] g[j]).from == from@ && g[j].to == to@),
            },
        decreases all_routes.len() - i,
    {
        let route = &all_routes[i];
        assert(g[i as int] == route@);
        if route.is_from(from) && route.is_to(to) {
            match best {
                Some(k) => {
                    if route.travel_time < all_routes[k].travel_time {
                        best = Some(i);
                    }
                },
                None => {
                    best = Some(i);
                },
            }
        }
        i = i + 1;
    }
    match best {
        Some(k) => {
            assert(is_cheapest(g, from@, to@, k as int));
            Some(&all_routes[k])
        },
        None => None,
    }
}

/// The routes to travel by through the given stations in order: between
/// each station and the next, the fastest route. `None` when some station
/// has no route to the next, or when there is no station at all.
pub open spec fn routes_along(g: Seq<RouteView>, stations: Seq<Seq<char>>) -> Option<
    Seq<RouteView>,
>
    decreases stations.len(),
{
    if stations.len() == 0 {
        None
    } else if stations.len() == 1 {
        Some(Seq::empty())
    } else {
        let a = stations[stations.len() - 2];
        let b = stations.last();
        match routes_along(g, stations.drop_last()) {
            Some(before) => if has_route(g, a, b) {
                Some(before.push(g[choose|k: int| is_cheapest(g, a, b, k)]))
            } else {
                None
            },
            None => None,
        }
    }
}

impl RoutePath {
    /// The path through the given stations, by the fastest route from
    /// each to the next. `None` when some station has no route to the
    /// next, or when there is no station at all.
    pub fn try_from(stations: &[Station], all_routes: &[Route]) -> (r: Option<Self>)
        ensures
            match r {
                Some(path) => {
                    &&& stations.len() > 0
                    &&& path@.from == stations[0]@
                    &&& path@.to == stations[stations.len() - 1]@
                    &&& routes_along(route_views(all_routes@), station_names(stations@)) == Some(
                        path@.routes,
                    )
                },
                None => routes_along(route_views(all_routes@), station_names(stations@)) is None,
            },
    {
        let ghost g = route_views(all_routes@);
        let ghost names = station_names(stations@);
        if stations.len() == 0 {
            return None;
        }
        let mut routes: Vec<Route> = Vec::new();
        let mut i: usize = 1;
        assert(names.take(1).len() == 1);
        assert(route_views(routes@) =~= Seq::<RouteView>::empty());
        while i < stations.len()
            invariant
                1 <= i <= stations.len(),
                g == route_views(all_routes@),
                names == station_names(stations@),
                names.len() == stations.len(),
                routes_along(g, names.take(i as int)) == Some(route_views(routes@)),
            decreases stations.len() - i,
        {
            proof {
                assert(names.take(i + 1).drop_last() =~= names.take(i as int));
                assert(names.take(i + 1)[i - 1] == stations[i - 1]@);
                assert(names.take(i + 1).last() == stations[i as int]@);
            }
            match cheapest_route(all_routes, &stations[i - 1], &stations[i]) {
                Some(route) => {
                    proof {
                        let a = stations[i - 1]@;
                        let b = stations[i as int]@;
                        let k = choose|k: int| is_cheapest(g, a, b, k) && g[k] == route@;
                        let c = choose|k: int| is_cheapest(g, a, b, k);
                        assert(g[k].from == a && g[k].to == b);
                        assert(has_route(g, a, b));
                        // Two routes that are both the first of the
                        // fastest are one route.
                        assert(c == k) by {
                            if c < k {
                                assert(g[k].travel_time < g[c].travel_time);
                            } else if k < c {
                                assert(g[c].travel_time < g[k].travel_time);
                            }
                        }
                    }
                    let ghost before = route_views(routes@);
                    routes.push(route.clone());
                    assert(route_views(routes@) =~= before.push(route@));
                },
                None => {
                    proof {
                        lemma_routes_along_prefix(g, names, i + 1);
                    }
                    return None;
                },
            }
            i = i + 1;
        }
        assert(names.take(i as int) =~= names);
        Some(
            RoutePath {
                station_pair: (stations[0].clone(), stations[stations.len() - 1].clone()),
                routes,
            },
        )
    }
}

/// Where there are no routes along the first of the stations, there are
/// none along all of them.
pub proof fn lemma_routes_along_prefix(g: Seq<RouteView>, stations: Seq<Seq<char>>, k: int)
    requires
        1 <= k <= stations.len(),
    ensures
        routes_along(g, stations.take(k)) is None ==> routes_along(g, stations) is None,
    decreases stations.len(),
{
    if k == stations.len() {
        assert(stations.take(k) =~= stations);
    } else {
        lemma_routes_along_prefix(g, stations.drop_last(), k);
        assert(stations.drop_last().take(k) =~= stations.take(k));
    }
}

/// The routes along stations lead from the first of them to the last, by
/// routes of the network, one for each step.
pub proof fn lemma_routes_along_is_path(g: Seq<RouteView>, stations: Seq<Seq<char>>)
    requires
        routes_along(g, stations) is Some,
    ensures
        routes_along(g, stations)->0.len() == stations.len() - 1,
        forall|k: int|
            0 <= k < stations.len() - 1 ==> {
                &&& (#[trigger] routes_along(g, stations)->0[k]).from == stations[k]
                &&& routes_along(g, stations)->0[k].to == stations[k + 1]
                &&& g.contains(routes_along(g, stations)->0[k])
            },
        stations.len() >= 2 ==> is_route_path(
            g,
            stations[0],
            stations.last(),
            routes_along(g, stations)->0,
        ),
    decreases stations.len(),
{
    if stations.len() >= 2 {
        let a = stations[stations.len() - 2];
        let b = stations.last();
        let before = routes_along(g, stations.drop_last())->0;
        let k = choose|k: int| is_cheapest(g, a, b, k);
        lemma_cheapest_exists(g, a, b);
        lemma_routes_along_is_path(g, stations.drop_last());
        let routes = routes_along(g, stations)->0;
        assert(routes == before.push(g[k]));
        assert forall|i: int| 0 <= i < routes.len() implies {
            &&& (#[trigger] routes[i]).from == stations[i]
            &&& routes[i].to == stations[i + 1]
            &&& g.contains(routes[i])
        } by {
            if i < before.len() {
                assert(routes[i] == before[i]);
                assert(stations.drop_last()[i] == stations[i]);
                assert(stations.drop_last()[i + 1] == stations[i + 1]);
            }
        }
        if stations.len() > 2 {
            assert(stations.drop_last().last() == a);
            assert(before.last().to == a);
            assert(routes[0] == before[0]);
            assert forall|i: int| 0 < i < routes.len() implies (#[trigger] routes[i]).from
                == routes[i - 1].to by {
                if i < before.len() {
                    assert(routes[i] == before[i]);
                    assert(routes[i - 1] == before[i - 1]);
                }
            }
        }
    }
}

/// Whether route `k` is the first of the fastest among the first `n`
/// routes of `g` that lead from `a` to `b`.
pub open spec fn is_cheapest_among(
    g: Seq<RouteView>,
    a: Seq<char>,
    b: Seq<char>,
    k: int,
    n: int,
) -> bool {
    &&& 0 <= k < n
    &&& g[k].from == a
    &&& g[k].to == b
    &&& forall|j: int|
        0 <= j < n && (#[trigger] g[j]).from == a && g[j].to == b ==> g[k].travel_time
            <= g[j].travel_time
    &&& forall|j: int|
        0 <= j < k && (#[trigger] g[j]).from == a && g[j].to == b ==> g[k].travel_time
            < g[j].travel_time
}

/// Among the first `n` routes, where one of them leads from `a` to `b`,
/// one is the first of the fastest of those.
pub proof fn lemma_cheapest_among(g: Seq<RouteView>, a: Seq<char>, b: Seq<char>, n: int) -> (k: int)
    requires
        0 <= n <= g.len(),
        exists|j: int| 0 <= j < n && (#[trigger] g[j]).from == a && g[j].to == b,
    ensures
        is_cheapest_among(g, a, b, k, n),
    decreases n,
{
    if exists|j: int| 0 <= j < n - 1 && (#[trigger] g[j]).from == a && g[j].to == b {
        let k = lemma_cheapest_among(g, a, b, n - 1);
        if g[n - 1].from == a && g[n - 1].to == b && g[n - 1].travel_time < g[k].travel_time {
            n - 1
        } else {
            k
        }
    } else {
        n - 1
    }
}

/// Where a route leads from `a` to `b`, one of them is the first of the
/// fastest.
pub proof fn lemma_cheapest_exists(g: Seq<RouteView>, a: Seq<char>, b: Seq<char>)
    requires
        has_route(g, a, b),
    ensures
        exists|k: int| is_cheapest(g, a, b, k),
{
    let k = lemma_cheapest_among(g, a, b, g.len() as int);
    assert(is_cheapest(g, a, b, k));
}

/// One line of what a search from a station finds: a station that can be
/// reached, the station before it on a shortest way there, and the time
/// that this way takes.
#[derive(Debug)]
pub struct Parent {
    pub node: Station,
    pub parent: Station,
    pub cost: u32,
}

/// What a line of a search's findings is in contracts.
pub struct ParentView {
    pub node: Seq<char>,
    pub parent: Seq<char>,
    pub cost: nat,
}

impl View for Parent {
    type V = ParentView;

    open spec fn view(&self) -> ParentView {
        ParentView { node: self.node@, parent: self.parent@, cost: self.cost as nat }
    }
}

/// The views of a search's findings.
pub open spec fn parent_views(parents: Seq<Parent>) -> Seq<ParentView> {
    parents.map_values(|p: Parent| p@)
}

/// Whether no station has two lines.
pub open spec fn distinct_nodes(parents: Seq<ParentView>) -> bool {
    forall|i: int, j: int|
        0 <= i < parents.len() && 0 <= j < parents.len() && i != j ==> (#[trigger] parents[i]).node
            != (#[trigger] parents[j]).node
}

/// Whether station `n` has a line.
pub open spec fn has_node(parents: Seq<ParentView>, n: Seq<char>) -> bool {
    exists|i: int| 0 <= i < parents.len() && (#[trigger] parents[i]).node == n
}

/// The line of station `n`.
pub open spec fn entry_of(parents: Seq<ParentView>, n: Seq<char>) -> ParentView {
    parents[choose|i: int| 0 <= i < parents.len() && (#[trigger] parents[i]).node == n]
}

/// Whether the way back from station `n`, from each station to the one
/// before it, comes in at most `fuel` steps to a station without a line.
pub open spec fn ends_within(parents: Seq<ParentView>, n: Seq<char>, fuel: nat) -> bool
    decreases fuel,
{
    !has_node(parents, n) || (fuel > 0 && ends_within(
        parents,
        entry_of(parents, n).parent,
        (fuel - 1) as nat,
    ))
}

/// The stations on the way to station `n`, from the one without a line
/// at its far end up to `n` itself, following at most `fuel` lines.
pub open spec fn walk_back(parents: Seq<ParentView>, n: Seq<char>, fuel: nat) -> Seq<Seq<char>>
    decreases fuel,
{
    if has_node(parents, n) && fuel > 0 {
        walk_back(parents, entry_of(parents, n).parent, (fuel - 1) as nat).push(n)
    } else {
        seq![n]
    }
}

/// The time that the findings give for the way to `p`: none to the
/// station that the search began at.
pub open spec fn cost_before(parents: Seq<ParentView>, from: Seq<char>, p: Seq<char>) -> nat {
    if p == from {
        0
    } else {
        entry_of(parents, p).cost
    }
}

/// Whether the line `e` names a station from which a route of `g` leads
/// on to `e.node`, at the time that the line gives.
pub open spec fn is_optimal_parent(
    parents: Seq<ParentView>,
    g: Seq<RouteView>,
    from: Seq<char>,
    e: ParentView,
) -> bool {
    &&& e.parent == from || has_node(parents, e.parent)
    &&& exists|k: int|
        0 <= k < g.len() && (#[trigger] g[k]).from == e.parent && g[k].to == e.node && cost_before(
            parents,
            from,
            e.parent,
        ) + g[k].travel_time == e.cost
}

impl Network {
    /// The routes that leave the station.
    pub fn routes_from(&self, station: &Station) -> (r: Vec<&Route>)
        ensures
            r@.map_values(|x: &Route| x@) == self@.routes.filter(
                |x: RouteView| x.from == station@,
            ),
    {
        let ghost g = self@.routes;
        let ghost leaves = |x: RouteView| x.from == station@;
        let mut out: Vec<&Route> = Vec::new();
        let mut i: usize = 0;
        proof {
            reveal(Seq::filter);
            assert(out@.map_values(|x: &Route| x@) =~= g.take(0).filter(leaves));
        }
        while i < self.routes.len()
            invariant
                i <= self.routes.len(),
                g == self@.routes,
                g.len() == self.routes.len(),
                leaves == |x: RouteView| x.from == station@,
                out@.map_values(|x: &Route| x@) == g.take(i as int).filter(leaves),
            decreases self.routes.len() - i,
        {
            proof {
                g.take(i as int).lemma_filter_push(g[i as int], leaves);
                assert(g.take(i + 1) =~= g.take(i as int).push(g[i as int]));
            }
            if self.routes[i].is_from(station) {
                let ghost before = out@.map_values(|x: &Route| x@);
                out.push(&self.routes[i]);
                assert(out@.map_values(|x: &Route| x@) =~= before.push(g[i as int]));
            }
            i = i + 1;
        }
        assert(g.take(i as int) =~= g);
        out
    }

    /// The stations that a route leads to from the station, each with the
    /// time that the route takes.
    pub fn reachable_stations(&self, station: &Station) -> (r: Vec<(Station, u32)>)
        ensures
            r@.map_values(|x: (Station, u32)| (x.0@, x.1 as nat)) == self@.routes.filter(
                |x: RouteView| x.from == station@,
            ).map_values(|x: RouteView| (x.to, x.travel_time)),
    {
        let involved_routes = self.routes_from(station);
        let ghost leaving = involved_routes@.map_values(|x: &Route| x@);
        let mut out: Vec<(Station, u32)> = Vec::new();
        let mut i: usize = 0;
        while i < involved_routes.len()
            invariant
                i <= involved_routes.len(),
                leaving == involved_routes@.map_values(|x: &Route| x@),
                out.len() == i,
                forall|j: int|
                    0 <= j < i ==> (#[trigger] out[j]).0@ == leaving[j].to && out[j].1
                        == leaving[j].travel_time,
            decreases involved_routes.len() - i,
        {
            let route = involved_routes[i];
            assert(leaving[i as int] == route@);
            out.push((route.to().clone(), route.travel_time));
            i = i + 1;
        }
        assert(out@.map_values(|x: (Station, u32)| (x.0@, x.1 as nat)) =~= leaving.map_values(
            |x: RouteView| (x.to, x.travel_time),
        ));
        out
    }
}

/// What a search from `from` over the routes of the network finds.
///
/// This is `dijkstra_all` of pathfinding, run from `from`, with the
/// stations that `reachable_stations` gives as the successors of a
/// station, and its result as a list of lines. The contract claims, as the
/// documentation of `dijkstra_all` and of `build_path` has it: the result
/// has one line for every station other than `from` that can be reached
/// from `from`, and no other; the cost of a line is the shortest time to
/// its station; its parent is a station from which a route leads on to
/// its station at just that cost; and the way back from a station by the
/// parents ends at `from`, so that `build_path` can follow it. The search
/// adds travel times up, which is why they must fit together.
#[verifier::external_body]
fn dijkstra_all_from(network: &Network, from: &Station) -> (parents: Vec<Parent>)
    requires
        path_time(network@.routes) <= u32::MAX,
    ensures
        distinct_nodes(parent_views(parents@)),
        forall|i: int| 0 <= i < parents.len() ==> (#[trigger] parents[i]).node@ != from@,
        forall|n: Seq<char>|
            n != from@ && #[trigger] connected(network@.routes, from@, n) ==> has_node(
                parent_views(parents@),
                n,
            ),
        forall|i: int|
            0 <= i < parents.len() ==> shortest_time(
                network@.routes,
                from@,
                (#[trigger] parents[i]).node@,
                parents[i].cost as nat,
            ),
        forall|i: int|
            0 <= i < parents.len() ==> is_optimal_parent(
                parent_views(parents@),
                network@.routes,
                from@,
                (#[trigger] parents[i])@,
            ),
        forall|i: int|
            0 <= i < parents.len() ==> ends_within(
                parent_views(parents@),
                (#[trigger] parents[i]).node@,
                parents.len() as nat,
            ),
{
    pathfinding::prelude::dijkstra_all(from, |station| network.reachable_stations(station))
        .into_iter()
        .map(|(node, (parent, cost))| Parent { node, parent, cost })
        .collect()
}

/// The stations on the way to `target`, from the far end of the way up to
/// `target` itself.
///
/// This is `build_path` of pathfinding on the given lines as its map of
/// parents. The contract claims what its source shows: it follows the
/// parents from `target` until it comes to a station without a line, and
/// gives the stations it came by in reverse. It does not return if the
/// way never ends, which the `requires` leaves out.
#[verifier::external_body]
fn build_path_to(target: &Station, parents: &Vec<Parent>) -> (r: Vec<Station>)
    requires
        distinct_nodes(parent_views(parents@)),
        ends_within(parent_views(parents@), target@, parents.len() as nat),
    ensures
        station_names(r@) == walk_back(parent_views(parents@), target@, parents.len() as nat),
{
    let table: HashMap<Station, (Station, u32)> = parents.iter().map(
        |p| (p.node.clone(), (p.parent.clone(), p.cost)),
    ).collect();
    pathfinding::prelude::build_path(target, &table)
}

/// The line of a station is a line of that station.
pub proof fn lemma_entry_of(parents: Seq<ParentView>, i: int)
    requires
        0 <= i < parents.len(),
        distinct_nodes(parents),
    ensures
        has_node(parents, parents[i].node),
        entry_of(parents, parents[i].node) == parents[i],
{
    let n = parents[i].node;
    let j = choose|j: int| 0 <= j < parents.len() && (#[trigger] parents[j]).node == n;
    assert(j == i);
}

/// Whether the way back from station `n` comes in just `d` steps to a
/// station without a line.
pub open spec fn steps_back(parents: Seq<ParentView>, n: Seq<char>, d: nat) -> bool
    decreases d,
{
    if d == 0 {
        !has_node(parents, n)
    } else {
        has_node(parents, n) && steps_back(parents, entry_of(parents, n).parent, (d - 1) as nat)
    }
}

/// A way back that ends within so many steps ends in just so many, or
/// fewer.
pub proof fn lemma_steps_exist(parents: Seq<ParentView>, n: Seq<char>, fuel: nat) -> (d: nat)
    requires
        ends_within(parents, n, fuel),
    ensures
        d <= fuel,
        steps_back(parents, n, d),
    decreases fuel,
{
    if !has_node(parents, n) {
        0
    } else {
        let d = lemma_steps_exist(parents, entry_of(parents, n).parent, (fuel - 1) as nat);
        d + 1
    }
}

/// The way back from a station has one length.
pub proof fn lemma_steps_unique(parents: Seq<ParentView>, n: Seq<char>, d1: nat, d2: nat)
    requires
        steps_back(parents, n, d1),
        steps_back(parents, n, d2),
    ensures
        d1 == d2,
    decreases d1,
{
    if d1 > 0 && d2 > 0 {
        lemma_steps_unique(
            parents,
            entry_of(parents, n).parent,
            (d1 - 1) as nat,
            (d2 - 1) as nat,
        );
    }
}

/// The stations on the way to a station whose way back takes `d` steps:
/// there are `d + 1` of them, the station is the last, and the way back
/// from the one at place `k` takes `k` steps.
pub proof fn lemma_walk_steps(parents: Seq<ParentView>, n: Seq<char>, d: nat, fuel: nat)
    requires
        steps_back(parents, n, d),
        d <= fuel,
    ensures
        walk_back(parents, n, fuel).len() == d + 1,
        walk_back(parents, n, fuel).last() == n,
        forall|k: int|
            0 <= k <= d ==> steps_back(parents, #[trigger] walk_back(parents, n, fuel)[k], k as nat),
    decreases d,
{
    if d > 0 {
        let p = entry_of(parents, n).parent;
        lemma_walk_steps(parents, p, (d - 1) as nat, (fuel - 1) as nat);
        let before = walk_back(parents, p, (fuel - 1) as nat);
        let walk = walk_back(parents, n, fuel);
        assert(walk == before.push(n));
        assert forall|k: int| 0 <= k <= d implies steps_back(
            parents,
            #[trigger] walk[k],
            k as nat,
        ) by {
            if k < d {
                assert(walk[k] == before[k]);
            }
        }
    }
}

/// No station is twice on the way to a station.
pub proof fn lemma_walk_distinct(parents: Seq<ParentView>, n: Seq<char>, fuel: nat)
    requires
        ends_within(parents, n, fuel),
    ensures
        walk_back(parents, n, fuel).no_duplicates(),
{
    let d = lemma_steps_exist(parents, n, fuel);
    lemma_walk_steps(parents, n, d, fuel);
    let walk = walk_back(parents, n, fuel);
    assert forall|a: int, b: int| 0 <= a < walk.len() && 0 <= b < walk.len() && a != b implies walk[a]
        != walk[b] by {
        assert(steps_back(parents, walk[a], a as nat));
        assert(steps_back(parents, walk[b], b as nat));
        if walk[a] == walk[b] {
            lemma_steps_unique(parents, walk[a], a as nat, b as nat);
        }
    }
}

/// Where every line names a station from which a route leads on at the
/// line's cost, the way to a station begins at the station that has no
/// line, there are routes along it, and they take no longer than the
/// station's line says.
pub proof fn lemma_walk_routes(
    parents: Seq<ParentView>,
    g: Seq<RouteView>,
    from: Seq<char>,
    n: Seq<char>,
    d: nat,
    fuel: nat,
)
    requires
        distinct_nodes(parents),
        forall|i: int|
            0 <= i < parents.len() ==> is_optimal_parent(parents, g, from, #[trigger] parents[i]),
        !has_node(parents, from),
        has_node(parents, n),
        steps_back(parents, n, d),
        d <= fuel,
    ensures
        walk_back(parents, n, fuel)[0] == from,
        walk_back(parents, n, fuel).last() == n,
        walk_back(parents, n, fuel).len() >= 2,
        routes_along(g, walk_back(parents, n, fuel)) is Some,
        path_time(routes_along(g, walk_back(parents, n, fuel))->0) <= entry_of(parents, n).cost,
    decreases d,
{
    let j = choose|j: int| 0 <= j < parents.len() && (#[trigger] parents[j]).node == n;
    let e = parents[j];
    assert(e == entry_of(parents, n));
    assert(is_optimal_parent(parents, g, from, e));
    let p = e.parent;
    let k = choose|k: int|
        0 <= k < g.len() && (#[trigger] g[k]).from == p && g[k].to == n && cost_before(
            parents,
            from,
            p,
        ) + g[k].travel_time == e.cost;
    assert(has_route(g, p, n));
    lemma_cheapest_exists(g, p, n);
    let c = choose|c: int| is_cheapest(g, p, n, c);
    assert(g[c].travel_time <= g[k].travel_time);
    let before = walk_back(parents, p, (fuel - 1) as nat);
    let walk = walk_back(parents, n, fuel);
    assert(walk == before.push(n));
    assert(walk.drop_last() =~= before);
    if p == from {
        assert(before =~= seq![from]);
        assert(routes_along(g, before) == Some(Seq::<RouteView>::empty()));
        assert(walk[walk.len() - 2] == p);
        let routes = routes_along(g, walk)->0;
        assert(routes == Seq::<RouteView>::empty().push(g[c]));
        assert(routes.drop_last() =~= Seq::<RouteView>::empty());
        assert(path_time(routes.drop_last()) == 0);
    } else {
        lemma_walk_routes(parents, g, from, p, (d - 1) as nat, (fuel - 1) as nat);
        assert(walk[0] == before[0]);
        assert(walk[walk.len() - 2] == before.last());
        let routes = routes_along(g, walk)->0;
        assert(routes == routes_along(g, before)->0.push(g[c]));
        assert(routes.drop_last() =~= routes_along(g, before)->0);
    }
}

/// Leaving one route out of a list takes its travel time off the time of
/// the list.
pub proof fn lemma_path_time_remove(routes: Seq<RouteView>, j: int)
    requires
        0 <= j < routes.len(),
    ensures
        path_time(routes.remove(j)) + routes[j].travel_time == path_time(routes),
    decreases routes.len(),
{
    if j == routes.len() - 1 {
        assert(routes.remove(j) =~= routes.drop_last());
    } else {
        lemma_path_time_remove(routes.drop_last(), j);
        assert(routes.remove(j).drop_last() =~= routes.drop_last().remove(j));
        assert(routes.remove(j).last() == routes.last());
    }
}

/// Routes of a network, none of them twice, take no longer together than
/// all routes of the network.
pub proof fn lemma_distinct_routes_time(chosen: Seq<RouteView>, g: Seq<RouteView>)
    requires
        chosen.no_duplicates(),
        forall|k: int| 0 <= k < chosen.len() ==> g.contains(#[trigger] chosen[k]),
    ensures
        path_time(chosen) <= path_time(g),
    decreases g.len(),
{
    if g.len() == 0 {
        if chosen.len() > 0 {
            assert(g.contains(chosen[0]));
        }
    } else {
        let x = g.last();
        let rest = g.drop_last();
        if chosen.contains(x) {
            let j = choose|j: int| 0 <= j < chosen.len() && chosen[j] == x;
            let others = chosen.remove(j);
            chosen.remove_ensures(j);
            assert forall|k: int| 0 <= k < others.len() implies rest.contains(
                #[trigger] others[k],
            ) by {
                let orig = if k < j {
                    k
                } else {
                    k + 1
                };
                assert(others[k] == chosen[orig]);
                assert(g.contains(chosen[orig]));
                let at = choose|at: int| 0 <= at < g.len() && g[at] == chosen[orig];
                assert(rest[at] == g[at]);
            }
            assert(others.no_duplicates()) by {
                assert forall|a: int, b: int|
                    0 <= a < others.len() && 0 <= b < others.len() && a != b implies others[a]
                    != others[b] by {
                    let oa = if a < j {
                        a
                    } else {
                        a + 1
                    };
                    let ob = if b < j {
                        b
                    } else {
                        b + 1
                    };
                    assert(others[a] == chosen[oa]);
                    assert(others[b] == chosen[ob]);
                }
            }
            lemma_distinct_routes_time(others, rest);
            lemma_path_time_remove(chosen, j);
        } else {
            assert forall|k: int| 0 <= k < chosen.len() implies rest.contains(
                #[trigger] chosen[k],
            ) by {
                assert(g.contains(chosen[k]));
                let at = choose|at: int| 0 <= at < g.len() && g[at] == chosen[k];
                assert(rest[at] == g[at]);
            }
            lemma_distinct_routes_time(chosen, rest);
        }
    }
}

/// Whether `p` is a shortest way between two different stations by
/// routes of `g`.
pub open spec fn is_shortest_path(g: Seq<RouteView>, p: RoutePathView) -> bool {
    &&& p.from != p.to
    &&& is_route_path(g, p.from, p.to, p.routes)
    &&& shortest_time(g, p.from, p.to, path_time(p.routes))
}

/// The views of a list of route paths.
pub open spec fn path_views(paths: Seq<RoutePath>) -> Seq<RoutePathView> {
    paths.map_values(|p: RoutePath| p@)
}

impl Network {
    /// The time that all routes of the network take together.
    pub fn total_travel_time(&self) -> (r: u32)
        requires
            path_time(self@.routes) <= u32::MAX,
        ensures
            r == path_time(self@.routes),
    {
        let ghost g = self@.routes;
        let mut total: u32 = 0;
        let mut i: usize = 0;
        while i < self.routes.len()
            invariant
                i <= self.routes.len(),
                g == self@.routes,
                g.len() == self.routes.len(),
                path_time(g) <= u32::MAX,
                total == path_time(g.take(i as int)),
            decreases self.routes.len() - i,
        {
            proof {
                lemma_path_time_prefix(g, i + 1);
                assert(g.take(i + 1).drop_last() =~= g.take(i as int));
            }
            total = total + self.routes[i].travel_time;
            i = i + 1;
        }
        assert(g.take(i as int) =~= g);
        total
    }

    /// A shortest path from `from` to every other station that can be
    /// reached from it, and to no other.
    pub fn shortest_route_paths(&self, from: &Station) -> (r: Vec<RoutePath>)
        requires
            path_time(self@.routes) <= u32::MAX,
        ensures
            forall|i: int|
                0 <= i < r.len() ==> {
                    &&& (#[trigger] r[i])@.from == from@
                    &&& is_shortest_path(self@.routes, r[i]@)
                    &&& path_time(r[i]@.routes) <= path_time(self@.routes)
                },
            forall|n: Seq<char>|
                n != from@ && #[trigger] connected(self@.routes, from@, n) ==> exists|i: int|
                    0 <= i < r.len() && (#[trigger] r[i])@.to == n,
            forall|i: int, j: int|
                0 <= i < r.len() && 0 <= j < r.len() && i != j ==> (#[trigger] r[i])@.to != (
                #[trigger] r[j])@.to,
    {
        let ghost g = self@.routes;
        let reachable_stations = dijkstra_all_from(self, from);
        let ghost parents = parent_views(reachable_stations@);
        let mut out: Vec<RoutePath> = Vec::new();
        let mut i: usize = 0;
        while i < reachable_stations.len()
            invariant
                i <= reachable_stations.len(),
                g == self@.routes,
                g == route_views(self.routes@),
                path_time(g) <= u32::MAX,
                parents == parent_views(reachable_stations@),
                distinct_nodes(parents),
                forall|k: int|
                    0 <= k < reachable_stations.len() ==> (
                    #[trigger] reachable_stations[k]).node@ != from@,
                forall|k: int|
                    0 <= k < reachable_stations.len() ==> shortest_time(
                        g,
                        from@,
                        (#[trigger] reachable_stations[k]).node@,
                        reachable_stations[k].cost as nat,
                    ),
                forall|k: int|
                    0 <= k < reachable_stations.len() ==> is_optimal_parent(
                        parents,
                        g,
                        from@,
                        (#[trigger] reachable_stations[k])@,
                    ),
                forall|k: int|
                    0 <= k < reachable_stations.len() ==> ends_within(
                        parents,
                        (#[trigger] reachable_stations[k]).node@,
                        reachable_stations.len() as nat,
                    ),
                out.len() == i,
                forall|k: int|
                    0 <= k < i ==> {
                        &&& (#[trigger] out[k])@.from == from@
                        &&& out[k]@.to == reachable_stations[k].node@
                        &&& is_shortest_path(g, out[k]@)
                        &&& path_time(out[k]@.routes) <= path_time(g)
                    },
            decreases reachable_stations.len() - i,
        {
            let to = &reachable_stations[i];
            let station_seq = build_path_to(&to.node, &reachable_stations);
            proof {
                let n = to.node@;
                let fuel = reachable_stations.len() as nat;
                let walk = station_names(station_seq@);
                assert(parents[i as int] == to@);
                assert(has_node(parents, n));
                lemma_entry_of(parents, i as int);
                assert forall|k: int| 0 <= k < parents.len() implies is_optimal_parent(
                    parents,
                    g,
                    from@,
                    #[trigger] parents[k],
                ) by {
                    assert(parents[k] == reachable_stations[k]@);
                }
                assert(!has_node(parents, from@)) by {
                    if has_node(parents, from@) {
                        let k = choose|k: int|
                            0 <= k < parents.len() && (#[trigger] parents[k]).node == from@;
                        assert(reachable_stations[k].node@ == from@);
                    }
                }
                let d = lemma_steps_exist(parents, n, fuel);
                lemma_walk_steps(parents, n, d, fuel);
                lemma_walk_routes(parents, g, from@, n, d, fuel);
                lemma_walk_distinct(parents, n, fuel);
                lemma_routes_along_is_path(g, walk);
                let routes = routes_along(g, walk)->0;
                assert(routes.no_duplicates()) by {
                    assert forall|a: int, b: int|
                        0 <= a < routes.len() && 0 <= b < routes.len() && a != b implies routes[a]
                        != routes[b] by {
                        assert(routes[a].from == walk[a]);
                        assert(routes[b].from == walk[b]);
                    }
                }
                lemma_distinct_routes_time(routes, g);
                assert(walk[0] == station_seq[0]@);
                assert(walk.last() == station_seq[station_seq.len() - 1]@);
            }
            match RoutePath::try_from(station_seq.as_slice(), self.routes.as_slice()) {
                Some(path) => {
                    out.push(path);
                },
                None => {
                    proof {
                        assert(false);
                    }
                },
            }
            i = i + 1;
        }
        proof {
            assert forall|n: Seq<char>| n != from@ && #[trigger] connected(g, from@, n) implies exists|
                i: int,
            |
                0 <= i < out.len() && (#[trigger] out[i])@.to == n by {
                let k = choose|k: int| 0 <= k < parents.len() && (#[trigger] parents[k]).node == n;
                assert(parents[k] == reachable_stations[k]@);
                assert(out[k]@.to == n);
            }
            assert forall|i: int, j: int|
                0 <= i < out.len() && 0 <= j < out.len() && i != j implies (#[trigger] out[i])@.to
                != (#[trigger] out[j])@.to by {
                assert(parents[i] == reachable_stations[i]@);
                assert(parents[j] == reachable_stations[j]@);
            }
        }
        out
    }
}

/// Staying at a station takes no time.
pub proof fn lemma_identity_path_time(s: Seq<char>)
    ensures
        path_time(identity_path(s).routes) == 0,
{
    let routes = identity_path(s).routes;
    assert(routes.drop_last().len() == 0);
    assert(path_time(routes.drop_last()) == 0);
    assert(path_time(routes) == path_time(routes.drop_last()) + routes.last().travel_time);
}

/// Whether `p` is a path that the table of the network may hold: the
/// path from one of its stations to itself, or a shortest path between
/// two different stations.
pub open spec fn is_entry_of(net: NetworkView, p: RoutePathView) -> bool {
    &&& net.stations.contains(p.from)
    &&& p == identity_path(p.from) || is_shortest_path(net.routes, p)
}

/// Whether `paths` is a table of route paths of the network: each of its
/// paths is one that such a table may hold; for every station it has the
/// path from the station to itself; and it has a path from every station
/// to every other station that can be reached from it.
pub open spec fn is_table_of(net: NetworkView, paths: Seq<RoutePathView>) -> bool {
    &&& forall|k: int| 0 <= k < paths.len() ==> is_entry_of(net, #[trigger] paths[k])
    &&& forall|s: Seq<char>| #[trigger]
        net.stations.contains(s) ==> find_path(paths, s, s) == Some(identity_path(s))
    &&& forall|s: Seq<char>, t: Seq<char>|
        net.stations.contains(s) && s != t && #[trigger] connected(net.routes, s, t) ==> find_path(
            paths,
            s,
            t,
        ) is Some
}

/// Whether no two of the paths lead from the same station to the same
/// station.
pub open spec fn has_distinct_pairs(paths: Seq<RoutePathView>) -> bool {
    forall|i: int, j: int|
        0 <= i < paths.len() && 0 <= j < paths.len() && i != j ==> !((#[trigger] paths[i]).from
            == (#[trigger] paths[j]).from && paths[i].to == paths[j].to)
}

/// The first path of a table that leads from `from` to `to` is the one
/// that is found.
pub proof fn lemma_find_path_first(
    paths: Seq<RoutePathView>,
    from: Seq<char>,
    to: Seq<char>,
    k: int,
)
    requires
        0 <= k < paths.len(),
        paths[k].from == from,
        paths[k].to == to,
        forall|j: int| 0 <= j < k ==> !((#[trigger] paths[j]).from == from && paths[j].to == to),
    ensures
        find_path(paths, from, to) == Some(paths[k]),
    decreases k,
{
    if k > 0 {
        assert(!(paths[0].from == from && paths[0].to == to));
        lemma_find_path_first(paths.skip(1), from, to, k - 1);
    }
}

/// Whether the path leaves one of the first `i` stations.
pub open spec fn leaves_one_of(stations: Seq<Station>, i: int, p: RoutePathView) -> bool {
    exists|from: int| 0 <= from < i && p.from == (#[trigger] stations[from])@
}

/// Two paths of a list stand apart, where the list is made of paths
/// that stand apart and of shortest paths from one more station: the
/// first stations' paths to themselves, shortest paths from stations
/// before station `i`, and then shortest paths from station `i` to
/// stations that differ.
proof fn lemma_apart(
    network: &Network,
    before: Seq<RoutePath>,
    added: Seq<RoutePath>,
    all: Seq<RoutePath>,
    i: int,
    a: int,
    b: int,
)
    requires
        network@.stations.no_duplicates(),
        0 <= i < network.stations.len(),
        all == before + added,
        before.len() >= network.stations.len(),
        has_distinct_pairs(path_views(before)),
        forall|k: int|
            0 <= k < network.stations.len() ==> (#[trigger] before[k])@ == identity_path(
                network.stations[k]@,
            ),
        forall|k: int|
            network.stations.len() <= k < before.len() ==> leaves_one_of(
                network.stations@,
                i,
                (#[trigger] before[k])@,
            ),
        forall|k: int|
            0 <= k < added.len() ==> (#[trigger] added[k])@.from == network.stations[i]@
                && added[k]@.from != added[k]@.to,
        forall|x: int, y: int|
            0 <= x < added.len() && 0 <= y < added.len() && x != y ==> (#[trigger] added[x])@.to
                != (#[trigger] added[y])@.to,
        0 <= a < all.len(),
        0 <= b < all.len(),
        a != b,
    ensures
        !(all[a]@.from == all[b]@.from && all[a]@.to == all[b]@.to),
{
    let n = network.stations.len() as int;
    let m = before.len() as int;
    if a < m && b < m {
        assert(path_views(before)[a] == before[a]@);
        assert(path_views(before)[b] == before[b]@);
    } else if a >= m && b >= m {
        assert(all[a] == added[a - m] && all[b] == added[b - m]);
    } else {
        let old = if a < m {
            a
        } else {
            b
        };
        let new = if a < m {
            b
        } else {
            a
        };
        assert(all[old] == before[old] && all[new] == added[new - m]);
        if old >= n {
            assert(leaves_one_of(network.stations@, i, before[old]@));
            let from = choose|from: int|
                0 <= from < i && before[old]@.from == (#[trigger] network.stations[from])@;
            assert(network@.stations[from] == network.stations[from]@);
            assert(network@.stations[i] == network.stations[i]@);
        } else {
            assert(network@.stations[old] == network.stations[old]@);
            assert(network@.stations[i] == network.stations[i]@);
        }
    }
}

/// All paths of such a list stand apart.
proof fn lemma_all_apart(
    network: &Network,
    before: Seq<RoutePath>,
    added: Seq<RoutePath>,
    all: Seq<RoutePath>,
    i: int,
)
    requires
        network@.stations.no_duplicates(),
        0 <= i < network.stations.len(),
        all == before + added,
        before.len() >= network.stations.len(),
        has_distinct_pairs(path_views(before)),
        forall|k: int|
            0 <= k < network.stations.len() ==> (#[trigger] before[k])@ == identity_path(
                network.stations[k]@,
            ),
        forall|k: int|
            network.stations.len() <= k < before.len() ==> leaves_one_of(
                network.stations@,
                i,
                (#[trigger] before[k])@,
            ),
        forall|k: int|
            0 <= k < added.len() ==> (#[trigger] added[k])@.from == network.stations[i]@
                && added[k]@.from != added[k]@.to,
        forall|x: int, y: int|
            0 <= x < added.len() && 0 <= y < added.len() && x != y ==> (#[trigger] added[x])@.to
                != (#[trigger] added[y])@.to,
    ensures
        has_distinct_pairs(path_views(all)),
{
    let views = path_views(all);
    assert forall|a: int, b: int| 0 <= a < views.len() && 0 <= b < views.len() && a != b implies !((
    #[trigger] views[a]).from == (#[trigger] views[b]).from && views[a].to == views[b].to) by {
        lemma_apart(network, before, added, all, i, a, b);
    }
}

/// Every shortest path of such a list leaves one of the stations up to
/// station `i`.
proof fn lemma_sources(
    network: &Network,
    before: Seq<RoutePath>,
    added: Seq<RoutePath>,
    all: Seq<RoutePath>,
    i: int,
)
    requires
        0 <= i < network.stations.len(),
        all == before + added,
        before.len() >= network.stations.len(),
        forall|k: int|
            network.stations.len() <= k < before.len() ==> leaves_one_of(
                network.stations@,
                i,
                (#[trigger] before[k])@,
            ),
        forall|k: int| 0 <= k < added.len() ==> (#[trigger] added[k])@.from == network.stations[i]@,
    ensures
        forall|k: int|
            network.stations.len() <= k < all.len() ==> leaves_one_of(
                network.stations@,
                i + 1,
                (#[trigger] all[k])@,
            ),
{
    assert forall|k: int| network.stations.len() <= k < all.len() implies leaves_one_of(
        network.stations@,
        i + 1,
        (#[trigger] all[k])@,
    ) by {
        if k < before.len() {
            assert(all[k] == before[k]);
            assert(leaves_one_of(network.stations@, i, before[k]@));
            let from = choose|from: int|
                0 <= from < i && before[k]@.from == (#[trigger] network.stations[from])@;
            assert(all[k]@.from == network.stations[from]@);
        } else {
            assert(all[k] == added[k - before.len()]);
            assert(all[k]@.from == network.stations[i]@);
        }
    }
}

impl Network {
    /// The path from every station to itself, and a shortest path from
    /// every station to every other that can be reached from it.
    pub fn all_shortest_route_paths(&self) -> (r: Vec<RoutePath>)
        requires
            path_time(self@.routes) <= u32::MAX,
        ensures
            r.len() >= self.stations.len(),
            forall|i: int|
                0 <= i < self.stations.len() ==> (#[trigger] r[i])@ == identity_path(
                    self.stations[i]@,
                ),
            forall|i: int|
                self.stations.len() <= i < r.len() ==> {
                    &&& is_shortest_path(self@.routes, (#[trigger] r[i])@)
                    &&& path_time(r[i]@.routes) <= path_time(self@.routes)
                    &&& self@.stations.contains(r[i]@.from)
                },
            forall|k: int, t: Seq<char>|
                0 <= k < self.stations.len() && t != self.stations[k]@ && #[trigger] connected(
                    self@.routes,
                    self.stations[k]@,
                    t,
                ) ==> exists|i: int|
                    0 <= i < r.len() && (#[trigger] r[i])@.from == self.stations[k]@ && r[i]@.to
                        == t,
            self@.stations.no_duplicates() ==> has_distinct_pairs(path_views(r@)),
    {
        let ghost g = self@.routes;
        let n = self.stations.len();
        let mut out: Vec<RoutePath> = Vec::new();
        let mut i: usize = 0;
        while i < n
            invariant
                i <= n,
                n == self.stations.len(),
                out.len() == i,
                forall|k: int|
                    0 <= k < i ==> (#[trigger] out[k])@ == identity_path(self.stations[k]@),
            decreases n - i,
        {
            let station = &self.stations[i];
            proof {
                reveal_strlit("#id");
                assert("#id"@ =~= seq!['#', 'i', 'd']);
            }
            let mut routes: Vec<Route> = Vec::new();
            routes.push(
                Route {
                    name: station.name.clone().concat("#id"),
                    from_to: (station.clone(), station.clone()),
                    travel_time: 0,
                },
            );
            let path = RoutePath { station_pair: (station.clone(), station.clone()), routes };
            assert(path@.routes =~= seq![identity_route(station@)]);
            out.push(path);
            i = i + 1;
        }
        proof {
            if self@.stations.no_duplicates() {
                let all = path_views(out@);
                assert forall|a: int, b: int|
                    0 <= a < all.len() && 0 <= b < all.len() && a != b implies !((
                #[trigger] all[a]).from == (#[trigger] all[b]).from && all[a].to == all[b].to) by {
                    assert(all[a] == out[a]@ && all[b] == out[b]@);
                    assert(self@.stations[a] == self.stations[a]@);
                    assert(self@.stations[b] == self.stations[b]@);
                }
            }
        }
        let mut i: usize = 0;
        while i < n
            invariant
                i <= n,
                n == self.stations.len(),
                g == self@.routes,
                path_time(g) <= u32::MAX,
                out.len() >= n,
                forall|k: int|
                    0 <= k < n ==> (#[trigger] out[k])@ == identity_path(self.stations[k]@),
                forall|k: int|
                    n <= k < out.len() ==> {
                        &&& is_shortest_path(g, (#[trigger] out[k])@)
                        &&& path_time(out[k]@.routes) <= path_time(g)
                        &&& self@.stations.contains(out[k]@.from)
                    },
                forall|k: int, t: Seq<char>|
                    0 <= k < i && t != self.stations[k]@ && #[trigger] connected(
                        g,
                        self.stations[k]@,
                        t,
                    ) ==> exists|j: int|
                        0 <= j < out.len() && (#[trigger] out[j])@.from == self.stations[k]@
                            && out[j]@.to == t,
                forall|k: int|
                    n <= k < out.len() ==> leaves_one_of(
                        self.stations@,
                        i as int,
                        (#[trigger] out[k])@,
                    ),
                self@.stations.no_duplicates() ==> has_distinct_pairs(path_views(out@)),
            decreases n - i,
        {
            let mut more = self.shortest_route_paths(&self.stations[i]);
            let ghost before = out@;
            let ghost added = more@;
            proof {
                assert forall|k: int| 0 <= k < n implies (#[trigger] before[k])@ == identity_path(
                    self.stations[k]@,
                ) by {
                    assert(out[k] == before[k]);
                }
                assert forall|k: int| n <= k < before.len() implies leaves_one_of(
                    self.stations@,
                    i as int,
                    (#[trigger] before[k])@,
                ) by {
                    assert(out[k] == before[k]);
                }
            }
            out.append(&mut more);
            proof {
                assert(out@ =~= before + added);
                let s = self.stations[i as int]@;
                assert(self@.stations[i as int] == s);
                lemma_sources(self, before, added, out@, i as int);
                if self@.stations.no_duplicates() {
                    lemma_all_apart(self, before, added, out@, i as int);
                }
                assert forall|k: int, t: Seq<char>|
                    0 <= k < i + 1 && t != self.stations[k]@ && #[trigger] connected(
                        g,
                        self.stations[k]@,
                        t,
                    ) implies exists|j: int|
                    0 <= j < out.len() && (#[trigger] out[j])@.from == self.stations[k]@
                        && out[j]@.to == t by {
                    if k < i {
                        let j = choose|j: int|
                            0 <= j < before.len() && (#[trigger] before[j])@.from
                                == self.stations[k]@ && before[j]@.to == t;
                        assert(out[j] == before[j]);
                    } else {
                        let j = choose|j: int| 0 <= j < added.len() && (#[trigger] added[j])@.to == t;
                        assert(out[before.len() + j] == added[j]);
                    }
                }
            }
            i = i + 1;
        }
        out
    }

    /// The table of route paths of the network.
    pub fn all_shortest_route_paths_map(&self) -> (r: RouteMap)
        requires
            path_time(self@.routes) <= u32::MAX,
        ensures
            r.limit == path_time(self@.routes),
            r.wf(),
            is_table_of(self@, r@),
            self@.stations.no_duplicates() ==> has_distinct_pairs(r@),
    {
        let limit = self.total_travel_time();
        let paths = self.all_shortest_route_paths();
        let map = RouteMap { paths, limit };
        proof {
            let net = self@;
            let table = map@;
            let n = self.stations.len() as int;
            assert forall|k: int| 0 <= k < table.len() implies path_time(
                #[trigger] table[k].routes,
            ) <= limit by {
                assert(table[k] == map.paths[k]@);
                if k < n {
                    lemma_identity_path_time(self.stations[k]@);
                }
            }
            assert forall|k: int| 0 <= k < table.len() implies is_entry_of(
                net,
                #[trigger] table[k],
            ) by {
                assert(table[k] == map.paths[k]@);
                if k < n {
                    assert(net.stations[k] == self.stations[k]@);
                }
            }
            assert forall|s: Seq<char>, t: Seq<char>|
                net.stations.contains(s) && s != t && #[trigger] connected(
                    net.routes,
                    s,
                    t,
                ) implies find_path(table, s, t) is Some by {
                let k = choose|k: int| 0 <= k < net.stations.len() && net.stations[k] == s;
                assert(self.stations[k]@ == s);
                let i = choose|i: int|
                    0 <= i < map.paths.len() && (#[trigger] map.paths[i])@.from == s
                        && map.paths[i]@.to == t;
                assert(table[i] == map.paths[i]@);
                lemma_find_path_is_entry(table, s, t);
            }
            assert forall|s: Seq<char>| #[trigger] net.stations.contains(s) implies find_path(
                table,
                s,
                s,
            ) == Some(identity_path(s)) by {
                let i = choose|i: int| 0 <= i < net.stations.len() && net.stations[i] == s;
                assert(table[i] == identity_path(self.stations[i]@));
                lemma_find_path_is_entry(table, s, s);
                let p = find_path(table, s, s)->0;
                let k = choose|k: int| 0 <= k < table.len() && table[k] == p;
                assert(is_entry_of(net, table[k]));
            }
        }
        map
    }
}

/// What is found in a table of a network: nothing between stations of
/// which the first is unknown or the second cannot be reached, else the
/// path from a station to itself or a shortest path.
pub proof fn lemma_table_lookup(net: NetworkView, paths: Seq<RoutePathView>, a: Seq<char>, b: Seq<char>)
    requires
        is_table_of(net, paths),
    ensures
        find_path(paths, a, b) is Some <==> net.stations.contains(a) && (a == b || connected(
            net.routes,
            a,
            b,
        )),
        find_path(paths, a, b) is Some ==> find_path(paths, a, b)->0.from == a && find_path(
            paths,
            a,
            b,
        )->0.to == b,
        find_path(paths, a, b) is Some && a == b ==> find_path(paths, a, b)->0 == identity_path(a),
        find_path(paths, a, b) is Some && a != b ==> is_shortest_path(
            net.routes,
            find_path(paths, a, b)->0,
        ),
{
    lemma_find_path_is_entry(paths, a, b);
    if find_path(paths, a, b) is Some {
        let p = find_path(paths, a, b)->0;
        let k = choose|k: int| 0 <= k < paths.len() && paths[k] == p;
        assert(is_entry_of(net, paths[k]));
        if a != b {
            assert(is_route_path(net.routes, a, b, p.routes));
        }
    }
}

/// The time of routes travelled after other routes is the sum of the
/// times of both.
pub proof fn lemma_path_time_add(a: Seq<RouteView>, b: Seq<RouteView>)
    ensures
        path_time(a + b) == path_time(a) + path_time(b),
    decreases b.len(),
{
    if b.len() == 0 {
        assert(a + b =~= a);
    } else {
        lemma_path_time_add(a, b.drop_last());
        assert((a + b).drop_last() =~= a + b.drop_last());
    }
}

/// The travel times of a table obey the triangle inequality: where it has
/// a path from a first station to a second and one from the second to a
/// third, it has one from the first to the third, which takes no longer
/// than the two together.
pub proof fn lemma_triangle(
    net: NetworkView,
    paths: Seq<RoutePathView>,
    a: Seq<char>,
    b: Seq<char>,
    c: Seq<char>,
)
    requires
        is_table_of(net, paths),
        find_path(paths, a, b) is Some,
        find_path(paths, b, c) is Some,
    ensures
        find_path(paths, a, c) is Some,
        path_time(find_path(paths, a, c)->0.routes) <= path_time(find_path(paths, a, b)->0.routes)
            + path_time(find_path(paths, b, c)->0.routes),
{
    lemma_table_lookup(net, paths, a, b);
    lemma_table_lookup(net, paths, b, c);
    lemma_table_lookup(net, paths, a, c);
    if a == c {
        lemma_identity_path_time(a);
    } else if a != b && b != c {
        let x = find_path(paths, a, b)->0.routes;
        let y = find_path(paths, b, c)->0.routes;
        let both = x + y;
        lemma_path_time_add(x, y);
        assert(is_route_path(net.routes, a, c, both)) by {
            assert(both[0] == x[0]);
            assert(both.last() == y.last());
            assert forall|i: int| 0 < i < both.len() implies (#[trigger] both[i]).from == both[i
                - 1].to by {
                if i < x.len() {
                    assert(both[i] == x[i] && both[i - 1] == x[i - 1]);
                } else if i == x.len() {
                    assert(both[i] == y[0] && both[i - 1] == x.last());
                } else {
                    assert(both[i] == y[i - x.len()] && both[i - 1] == y[i - 1 - x.len()]);
                }
            }
            assert forall|k: int| 0 <= k < both.len() implies net.routes.contains(
                #[trigger] both[k],
            ) by {
                if k < x.len() {
                    assert(both[k] == x[k]);
                } else {
                    assert(both[k] == y[k - x.len()]);
                }
            }
        }
    }
}

} // verus!
