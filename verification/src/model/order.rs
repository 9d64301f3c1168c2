//! The order in which routes, packages and trains are given does not
//! matter to what can be planned, nor to the smallest makespan.

use crate::args::{NetworkView, PackageView, RouteView};
use crate::args::reverse_mark;
use crate::model::{
    clashes, clashes_with, is_infeasible, is_optimal_makespan, is_spare, lemma_spare_from,
    lemma_spare_marks, marks, required_actions, reverses, route_names, with_reverses,
};
use crate::model::route_path::{
    connected, find_path, is_route_path, is_table_of, lemma_table_lookup, path_time,
    shortest_time, RoutePathView,
};
use crate::model::reach::{lemma_fleet_taken_member, lemma_successor_is_move};
use crate::model::state::{
    chain_resolves, duration, fleet_duration, fleet_taken, follows, fresh_fleet,
    is_initial_state, is_optimal_time, is_plan, is_way, legs, lemma_filter_member,
    lemma_fleet_duration_is_max, lemma_move_is_allowed, position, ActionView, StateView,
    TrainStateView,
};
use vstd::prelude::*;

verus! {

/// Whether the two lists hold the same items, in whatever order.
pub open spec fn same_items<A>(a: Seq<A>, b: Seq<A>) -> bool {
    forall|x: A| #[trigger] a.contains(x) <==> b.contains(x)
}

/// A list in reverse holds the items of the list.
pub proof fn lemma_reverse_same_items<A>(a: Seq<A>)
    ensures
        same_items(a, a.reverse()),
{
    let b = a.reverse();
    assert forall|x: A| #[trigger] a.contains(x) <==> b.contains(x) by {
        if a.contains(x) {
            let i = choose|i: int| 0 <= i < a.len() && a[i] == x;
            assert(b[a.len() - 1 - i] == x);
        }
        if b.contains(x) {
            let i = choose|i: int| 0 <= i < b.len() && b[i] == x;
            assert(a[a.len() - 1 - i] == x);
        }
    }
}

/// Whether the two tables have a path for the same pairs of stations,
/// which takes the same time in both.
pub open spec fn tables_agree(p: Seq<RoutePathView>, q: Seq<RoutePathView>) -> bool {
    forall|a: Seq<char>, b: Seq<char>|
        {
            &&& (#[trigger] find_path(p, a, b)) is Some <==> find_path(q, a, b) is Some
            &&& find_path(p, a, b) is Some ==> path_time(find_path(p, a, b)->0.routes) == path_time(
                find_path(q, a, b)->0.routes,
            )
        }
}

/// Routes lead from one station to another in a network just when they
/// do in a network with the same routes in another order.
pub proof fn lemma_route_path_same_items(
    g: Seq<RouteView>,
    h: Seq<RouteView>,
    a: Seq<char>,
    b: Seq<char>,
    path: Seq<RouteView>,
)
    requires
        same_items(g, h),
        is_route_path(g, a, b, path),
    ensures
        is_route_path(h, a, b, path),
{
    assert forall|k: int| 0 <= k < path.len() implies h.contains(#[trigger] path[k]) by {
        assert(g.contains(path[k]));
    }
}

/// The tables of two networks with the same stations and the same routes,
/// in whatever order, agree.
pub proof fn lemma_tables_agree(
    net: NetworkView,
    other: NetworkView,
    p: Seq<RoutePathView>,
    q: Seq<RoutePathView>,
)
    requires
        other.stations == net.stations,
        same_items(net.routes, other.routes),
        is_table_of(net, p),
        is_table_of(other, q),
    ensures
        tables_agree(p, q),
{
    let g = net.routes;
    let h = other.routes;
    assert(same_items(h, g));
    assert forall|a: Seq<char>, b: Seq<char>|
        {
            &&& (#[trigger] find_path(p, a, b)) is Some <==> find_path(q, a, b) is Some
            &&& find_path(p, a, b) is Some ==> path_time(find_path(p, a, b)->0.routes) == path_time(
                find_path(q, a, b)->0.routes,
            )
        } by {
        lemma_table_lookup(net, p, a, b);
        lemma_table_lookup(other, q, a, b);
        if connected(g, a, b) {
            let path = choose|path: Seq<RouteView>| is_route_path(g, a, b, path);
            lemma_route_path_same_items(g, h, a, b, path);
        }
        if connected(h, a, b) {
            let path = choose|path: Seq<RouteView>| is_route_path(h, a, b, path);
            lemma_route_path_same_items(h, g, a, b, path);
        }
        if find_path(p, a, b) is Some && a != b {
            let x = find_path(p, a, b)->0;
            let y = find_path(q, a, b)->0;
            let t = path_time(x.routes);
            let u = path_time(y.routes);
            assert(shortest_time(g, a, b, t));
            assert(shortest_time(h, a, b, u));
            lemma_route_path_same_items(g, h, a, b, x.routes);
            lemma_route_path_same_items(h, g, a, b, y.routes);
        }
    }
}

/// By tables that agree, a train travels the same time.
pub proof fn lemma_duration_agrees(
    p: Seq<RoutePathView>,
    q: Seq<RoutePathView>,
    initial: Seq<char>,
    taken: Seq<ActionView>,
)
    requires
        tables_agree(p, q),
    ensures
        duration(p, initial, taken) == duration(q, initial, taken),
        chain_resolves(p, initial, taken) == chain_resolves(q, initial, taken),
    decreases taken.len(),
{
    if taken.len() > 0 {
        let rest = taken.drop_last();
        lemma_duration_agrees(p, q, initial, rest);
        let from = position(initial, rest);
        let to = taken.last().station();
        assert(find_path(p, from, to) is Some <==> find_path(q, from, to) is Some);
        assert(legs(p, initial, taken).drop_last() =~= legs(p, initial, rest));
        assert(legs(q, initial, taken).drop_last() =~= legs(q, initial, rest));
        if find_path(p, from, to) is None {
            assert(find_path(p, from, to) == find_path(q, from, to));
        }
    }
}

/// By tables that agree, a train may take the same actions and can reach
/// the same stations.
pub proof fn lemma_train_agrees(
    p: Seq<RoutePathView>,
    q: Seq<RoutePathView>,
    t: TrainStateView,
    a: ActionView,
)
    requires
        tables_agree(p, q),
    ensures
        t.can_take(p, a) == t.can_take(q, a),
        t.can_reach(p, a) == t.can_reach(q, a),
        t.duration(p) == t.duration(q),
{
    lemma_duration_agrees(p, q, t.train.initial_station, t.taken);
    match a {
        ActionView::Pick(pack, _) => {
            assert(find_path(p, t.train.initial_station, pack.from) is Some <==> find_path(
                q,
                t.train.initial_station,
                pack.from,
            ) is Some);
        },
        ActionView::Drop(_, _) => {},
    }
    assert(find_path(p, t.position(), a.station()) is Some <==> find_path(
        q,
        t.position(),
        a.station(),
    ) is Some);
}

/// The place of train `i` in a fleet of `n` trains, given in the same
/// order or in reverse.
pub open spec fn place(flip: bool, n: int, i: int) -> int {
    if flip {
        n - 1 - i
    } else {
        i
    }
}

/// The fleet in the same order or in reverse.
pub open spec fn fleet_in_order(flip: bool, fleet: Seq<TrainStateView>) -> Seq<TrainStateView> {
    if flip {
        fleet.reverse()
    } else {
        fleet
    }
}

/// The state as it is when the network is given in another order: the
/// trains in the same order or in reverse, with the required actions and
/// the table of that network.
pub open spec fn in_order(
    s: StateView,
    flip: bool,
    required: Seq<ActionView>,
    paths: Seq<RoutePathView>,
    limit: nat,
) -> StateView {
    StateView { fleet: fleet_in_order(flip, s.fleet), required: required, paths: paths, limit: limit }
}

/// In whatever order the trains are given, the fleet has taken the same
/// actions, and by tables that agree its makespan is the same.
pub proof fn lemma_fleet_agrees(
    p: Seq<RoutePathView>,
    q: Seq<RoutePathView>,
    flip: bool,
    fleet: Seq<TrainStateView>,
)
    requires
        tables_agree(p, q),
    ensures
        forall|a: ActionView| #[trigger]
            fleet_taken(fleet).contains(a) <==> fleet_taken(fleet_in_order(flip, fleet)).contains(a),
        fleet_duration(p, fleet) == fleet_duration(q, fleet_in_order(flip, fleet)),
{
    let other = fleet_in_order(flip, fleet);
    let n = fleet.len() as int;
    assert forall|i: int| 0 <= i < n implies other[place(flip, n, i)] == #[trigger] fleet[i] by {}
    assert forall|a: ActionView| #[trigger]
        fleet_taken(fleet).contains(a) <==> fleet_taken(other).contains(a) by {
        lemma_fleet_taken_member(fleet, a);
        lemma_fleet_taken_member(other, a);
        if exists|i: int| 0 <= i < fleet.len() && (#[trigger] fleet[i]).taken.contains(a) {
            let i = choose|i: int| 0 <= i < fleet.len() && (#[trigger] fleet[i]).taken.contains(a);
            assert(other[place(flip, n, i)].taken.contains(a));
        }
        if exists|i: int| 0 <= i < other.len() && (#[trigger] other[i]).taken.contains(a) {
            let i = choose|i: int| 0 <= i < other.len() && (#[trigger] other[i]).taken.contains(a);
            assert(fleet[place(flip, n, i)].taken.contains(a));
        }
    }
    lemma_fleet_duration_is_max(p, fleet);
    lemma_fleet_duration_is_max(q, other);
    if n > 0 {
        let i = choose|i: int|
            0 <= i < fleet.len() && (#[trigger] fleet[i]).duration(p) == fleet_duration(p, fleet);
        let j = choose|j: int|
            0 <= j < other.len() && (#[trigger] other[j]).duration(q) == fleet_duration(q, other);
        lemma_duration_agrees(p, q, fleet[i].train.initial_station, fleet[i].taken);
        lemma_duration_agrees(p, q, other[j].train.initial_station, other[j].taken);
        assert(other[place(flip, n, i)].duration(q) <= fleet_duration(q, other));
        assert(fleet[place(flip, n, j)].duration(p) <= fleet_duration(p, fleet));
    }
}

/// Nothing is left to take just when every required action is taken.
pub proof fn lemma_goal_means_all_taken(s: StateView)
    ensures
        s.is_goal() <==> forall|a: ActionView| #[trigger]
            s.required.contains(a) ==> s.taken().contains(a),
{
    let open = s.untaken();
    if s.is_goal() {
        assert forall|a: ActionView| #[trigger] s.required.contains(a) implies s.taken().contains(
            a,
        ) by {
            lemma_filter_member(s.required, |x: ActionView| !s.taken().contains(x), a);
            if !s.taken().contains(a) {
                assert(open.contains(a));
            }
        }
    }
    if open.len() > 0 {
        let a = open[0];
        assert(open.contains(a));
        lemma_filter_member(s.required, |x: ActionView| !s.taken().contains(x), a);
    }
}

/// The outcome of a move of a train is a state that follows.
pub proof fn lemma_move_is_successor(s: StateView, n: int, i: int, a: ActionView) -> (k: int)
    requires
        0 <= i < n <= s.fleet.len(),
        s.moves(i).contains(a),
    ensures
        0 <= k < s.successors_upto(n).len(),
        s.successors_upto(n)[k] == s.outcome(i, a),
    decreases n,
{
    let before = s.successors_upto(n - 1);
    if i == n - 1 {
        let j = choose|j: int| 0 <= j < s.moves(i).len() && s.moves(i)[j] == a;
        assert(s.train_successors(i)[j] == s.outcome(i, a));
        before.len() + j
    } else {
        lemma_move_is_successor(s, n - 1, i, a)
    }
}

/// What follows a state follows it in whatever order the network is
/// given, with the same makespan.
pub proof fn lemma_follows_in_order(
    s: StateView,
    t: StateView,
    flip: bool,
    required: Seq<ActionView>,
    paths: Seq<RoutePathView>,
    limit: nat,
)
    requires
        follows(s, t),
        same_items(s.required, required),
        tables_agree(s.paths, paths),
    ensures
        follows(in_order(s, flip, required, paths, limit), in_order(t, flip, required, paths, limit)),
        t.required == s.required,
        t.paths == s.paths,
{
    let k = choose|k: int| 0 <= k < s.successors().len() && (#[trigger] s.successors()[k]).0 == t;
    let n = s.fleet.len() as int;
    let m = lemma_successor_is_move(s, n, k);
    let i = m.0;
    let a = m.1;
    let s2 = in_order(s, flip, required, paths, limit);
    let t2 = in_order(t, flip, required, paths, limit);
    let j = place(flip, n, i);
    lemma_move_is_allowed(s, i, a);
    lemma_move_is_allowed(s2, j, a);
    lemma_fleet_agrees(s.paths, paths, flip, s.fleet);
    assert(s2.fleet[j] == s.fleet[i]);
    lemma_train_agrees(s.paths, paths, s.fleet[i], a);
    assert(s.required.contains(a));
    assert(s.taken().contains(a) <==> s2.taken().contains(a));
    assert(s2.moves(j).contains(a));
    let at = lemma_move_is_successor(s2, n, j, a);
    assert(s2.after(j, a).fleet =~= t2.fleet);
    assert(s2.successors()[at].0 == t2);
}

/// A plan is a plan in whatever order the network is given, and comes
/// to the same makespan.
pub proof fn lemma_plan_in_order(
    path: Seq<StateView>,
    flip: bool,
    required: Seq<ActionView>,
    paths: Seq<RoutePathView>,
    limit: nat,
) -> (other: Seq<StateView>)
    requires
        path.len() > 0,
        is_plan(path[0], path),
        same_items(path[0].required, required),
        tables_agree(path[0].paths, paths),
    ensures
        other.len() == path.len(),
        other[0] == in_order(path[0], flip, required, paths, limit),
        is_plan(other[0], other),
        other.last().makespan() == path.last().makespan(),
{
    let other = path.map_values(|s: StateView| in_order(s, flip, required, paths, limit));
    assert forall|i: int| 0 <= i < path.len() implies (#[trigger] path[i]).required
        == path[0].required && path[i].paths == path[0].paths by {
        lemma_way_keeps(path, i);
    }
    assert forall|i: int| 0 < i < other.len() implies follows(other[i - 1], #[trigger] other[i]) by {
        assert(follows(path[i - 1], path[i]));
        assert(path[i - 1].required == path[0].required);
        lemma_follows_in_order(path[i - 1], path[i], flip, required, paths, limit);
    }
    let last = path.last();
    let last2 = other.last();
    assert(last.required == path[0].required);
    lemma_fleet_agrees(last.paths, paths, flip, last.fleet);
    lemma_goal_means_all_taken(last);
    lemma_goal_means_all_taken(last2);
    assert forall|a: ActionView| #[trigger] last2.required.contains(a) implies last2.taken().contains(
        a,
    ) by {
        assert(last.required.contains(a));
        assert(last.taken().contains(a));
    }
    other
}

/// On a way, every state has the required actions and the table of the
/// first.
pub proof fn lemma_way_keeps(path: Seq<StateView>, n: int)
    requires
        is_way(path),
        0 <= n < path.len(),
    ensures
        path[n].required == path[0].required,
        path[n].paths == path[0].paths,
        path[n].limit == path[0].limit,
    decreases n,
{
    if n > 0 {
        lemma_way_keeps(path, n - 1);
        let s = path[n - 1];
        assert(follows(s, path[n]));
        let k = choose|k: int|
            0 <= k < s.successors().len() && (#[trigger] s.successors()[k]).0 == path[n];
        let m = lemma_successor_is_move(s, s.fleet.len() as int, k);
    }
}

/// Packages in another order ask for the same actions.
pub proof fn lemma_required_same_items(a: Seq<PackageView>, b: Seq<PackageView>)
    requires
        same_items(a, b),
    ensures
        same_items(required_actions(a), required_actions(b)),
{
    lemma_required_from(a, b);
    assert(same_items(b, a));
    lemma_required_from(b, a);
}

/// What the packages of `a` ask for is asked for by the packages of `b`,
/// where `b` holds all packages of `a`.
proof fn lemma_required_from(a: Seq<PackageView>, b: Seq<PackageView>)
    requires
        forall|x: PackageView| #[trigger] a.contains(x) ==> b.contains(x),
    ensures
        forall|x: ActionView| #[trigger]
            required_actions(a).contains(x) ==> required_actions(b).contains(x),
{
    let ra = required_actions(a);
    let rb = required_actions(b);
    assert forall|x: ActionView| #[trigger] ra.contains(x) implies rb.contains(x) by {
        let k = choose|k: int| 0 <= k < ra.len() && ra[k] == x;
        let pack = a[k / 2];
        assert(a.contains(pack));
        let j = choose|j: int| 0 <= j < b.len() && b[j] == pack;
        if k % 2 == 0 {
            assert(rb[2 * j] == x);
        } else {
            assert(rb[2 * j + 1] == x);
        }
    }
}

/// Whether `other` is the network `net` with its routes and its packages
/// in whatever order, and its trains in the same order or in reverse.
pub open spec fn is_reordering(net: NetworkView, other: NetworkView) -> bool {
    &&& other.stations == net.stations
    &&& same_items(net.routes, other.routes)
    &&& same_items(net.packages, other.packages)
    &&& other.trains == net.trains || other.trains == net.trains.reverse()
}

/// A plan for a network gives a plan for the network in another order,
/// with the same makespan.
pub proof fn lemma_plan_for_reordering(
    net: NetworkView,
    other: NetworkView,
    start: StateView,
    other_start: StateView,
    path: Seq<StateView>,
) -> (other_path: Seq<StateView>)
    requires
        is_reordering(net, other),
        is_initial_state(net, start),
        is_initial_state(other, other_start),
        is_plan(start, path),
    ensures
        is_plan(other_start, other_path),
        other_path.last().makespan() == path.last().makespan(),
{
    let flip = other.trains != net.trains;
    lemma_required_same_items(net.packages, other.packages);
    lemma_tables_agree(net, other, start.paths, other_start.paths);
    let other_path = lemma_plan_in_order(
        path,
        flip,
        other_start.required,
        other_start.paths,
        other_start.limit,
    );
    assert(fleet_in_order(flip, fresh_fleet(net.trains)) =~= fresh_fleet(other.trains));
    other_path
}

/// The smallest makespan of the plans for a network is the smallest
/// makespan of the plans for the network in another order.
pub proof fn lemma_optimal_for_reordering(
    net: NetworkView,
    other: NetworkView,
    start: StateView,
    other_start: StateView,
    time: nat,
)
    requires
        is_reordering(net, other),
        is_initial_state(net, start),
        is_initial_state(other, other_start),
        is_optimal_time(start, time),
    ensures
        is_optimal_time(other_start, time),
{
    lemma_reordering_back(net, other);
    let best = choose|path: Seq<StateView>| #[trigger]
        is_plan(start, path) && path.last().makespan() == time;
    let there = lemma_plan_for_reordering(net, other, start, other_start, best);
    assert(is_plan(other_start, there) && there.last().makespan() == time);
    assert forall|path: Seq<StateView>| #[trigger] is_plan(other_start, path) implies time
        <= path.last().makespan() by {
        let back = lemma_plan_for_reordering(other, net, other_start, start, path);
    }
}

/// The smallest makespan with which the packages of a network can be
/// delivered is the same in whatever order its routes, its packages and
/// its trains are given: reversing the order of any of them changes
/// nothing.
pub proof fn lemma_order_is_immaterial(
    net: NetworkView,
    other: NetworkView,
    start: StateView,
    other_start: StateView,
    time: nat,
    other_time: nat,
)
    requires
        is_reordering(net, other),
        is_initial_state(net, start),
        is_initial_state(other, other_start),
        is_optimal_time(start, time),
        is_optimal_time(other_start, other_time),
    ensures
        time == other_time,
{
    lemma_optimal_for_reordering(net, other, start, other_start, time);
    let best = choose|path: Seq<StateView>| #[trigger]
        is_plan(other_start, path) && path.last().makespan() == time;
    let other_best = choose|path: Seq<StateView>| #[trigger]
        is_plan(other_start, path) && path.last().makespan() == other_time;
}

/// Where no plan delivers the packages of a network, none does in
/// whatever order the network is given.
pub proof fn lemma_order_keeps_infeasible(
    net: NetworkView,
    other: NetworkView,
    start: StateView,
    other_start: StateView,
)
    requires
        is_reordering(net, other),
        is_initial_state(net, start),
        is_initial_state(other, other_start),
        forall|path: Seq<StateView>| !#[trigger] is_plan(start, path),
    ensures
        forall|path: Seq<StateView>| !#[trigger] is_plan(other_start, path),
{
    lemma_reordering_back(net, other);
    assert forall|path: Seq<StateView>| !#[trigger] is_plan(other_start, path) by {
        if is_plan(other_start, path) {
            let back = lemma_plan_for_reordering(other, net, other_start, start, path);
        }
    }
}

/// A network is a reordering of its reorderings.
pub proof fn lemma_reordering_back(net: NetworkView, other: NetworkView)
    requires
        is_reordering(net, other),
    ensures
        is_reordering(other, net),
{
    if other.trains == net.trains.reverse() {
        assert(other.trains.reverse() =~= net.trains);
    }
}

/// A network whose routes, packages and trains are each given in the
/// same order or in reverse is a reordering of the network.
pub proof fn lemma_reversal_is_reordering(
    net: NetworkView,
    routes: bool,
    packages: bool,
    trains: bool,
)
    ensures
        is_reordering(
            net,
            NetworkView {
                stations: net.stations,
                routes: if routes {
                    net.routes.reverse()
                } else {
                    net.routes
                },
                packages: if packages {
                    net.packages.reverse()
                } else {
                    net.packages
                },
                trains: if trains {
                    net.trains.reverse()
                } else {
                    net.trains
                },
            },
        ),
{
    lemma_reverse_same_items(net.routes);
    lemma_reverse_same_items(net.packages);
}

/// The network that is made of an input whose routes, packages and
/// trains are each given in the same order or in reverse is a reordering
/// of the network that is made of the input.
pub proof fn lemma_input_reversal_is_reordering(
    input: NetworkView,
    routes: bool,
    packages: bool,
    trains: bool,
)
    ensures
        is_reordering(
            with_reverses(input),
            with_reverses(
                NetworkView {
                    stations: input.stations,
                    routes: if routes {
                        input.routes.reverse()
                    } else {
                        input.routes
                    },
                    packages: if packages {
                        input.packages.reverse()
                    } else {
                        input.packages
                    },
                    trains: if trains {
                        input.trains.reverse()
                    } else {
                        input.trains
                    },
                },
            ),
        ),
{
    lemma_reverse_same_items(input.packages);
    if routes {
        let given = input.routes;
        let turned = given.reverse();
        let names = route_names(given);
        let others = route_names(turned);
        let n = given.len() as int;
        // The names are the same in either order, so the reverses bear
        // the same number of marks.
        let k = lemma_spare_from(names, 0);
        lemma_spare_marks(names, k);
        assert forall|e: Seq<char>| clashes_with(names, e) <==> #[trigger] clashes_with(
            others,
            e,
        ) by {
            if clashes_with(names, e) {
                let i = choose|i: int|
                    0 <= i < names.len() && names.contains(
                        (#[trigger] names[i]) + reverse_mark() + e,
                    );
                let x = names[i] + reverse_mark() + e;
                let j = choose|j: int| 0 <= j < names.len() && names[j] == x;
                assert(others[n - 1 - i] == names[i]);
                assert(others[n - 1 - j] == x);
            }
            if clashes_with(others, e) {
                let i = choose|i: int|
                    0 <= i < others.len() && others.contains(
                        (#[trigger] others[i]) + reverse_mark() + e,
                    );
                let x = others[i] + reverse_mark() + e;
                let j = choose|j: int| 0 <= j < others.len() && others[j] == x;
                assert(names[n - 1 - i] == others[i]);
                assert(names[n - 1 - j] == x);
            }
        }
        assert(is_spare(others, k)) by {
            assert(clashes_with(names, marks(k)) <==> clashes_with(others, marks(k)));
            assert forall|j: nat| j < k implies #[trigger] clashes(others, j) by {
                assert(clashes(names, j));
                assert(clashes_with(names, marks(j)) <==> clashes_with(others, marks(j)));
            }
        }
        lemma_spare_marks(others, k);
        let a = with_reverses(input).routes;
        let b = reverses(turned) + turned;
        assert forall|x: RouteView| #[trigger] a.contains(x) <==> b.contains(x) by {
            if a.contains(x) {
                let i = choose|i: int| 0 <= i < a.len() && a[i] == x;
                if i < n {
                    assert(b[n - 1 - i] == x);
                } else {
                    assert(b[n + (n - 1 - (i - n))] == x);
                }
            }
            if b.contains(x) {
                let i = choose|i: int| 0 <= i < b.len() && b[i] == x;
                if i < n {
                    assert(a[n - 1 - i] == x);
                } else {
                    assert(a[n + (n - 1 - (i - n))] == x);
                }
            }
        }
    }
}

} // verus!
