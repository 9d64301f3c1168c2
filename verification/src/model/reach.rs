//! What holds of the states that the search comes to: the trains stay
//! within their capacities, drop only what they hold, and when the work is
//! done every package has been picked up and dropped off once.

use crate::args::PackageView;
use crate::model::required_actions;
use crate::model::state::{
    carries, fleet_duration, fleet_taken, follows, instructions_time, is_plan, is_way,
    lemma_duration_grows, lemma_filter_member, lemma_fleet_duration_grows,
    lemma_fleet_duration_is_max, lemma_inv_after, lemma_legs_len, lemma_move_is_allowed,
    lemma_sound_after, lemma_train_instructions_time, plan_cost, ActionView, StateView,
    TrainStateView,
};
use vstd::prelude::*;

verus! {

/// Every state that follows is the outcome of a move of one train.
pub proof fn lemma_successor_is_move(s: StateView, n: int, k: int) -> (m: (int, ActionView))
    requires
        0 <= n <= s.fleet.len(),
        0 <= k < s.successors_upto(n).len(),
    ensures
        0 <= m.0 < n,
        s.moves(m.0).contains(m.1),
        s.successors_upto(n)[k] == s.outcome(m.0, m.1),
    decreases n,
{
    let before = s.successors_upto(n - 1);
    if k < before.len() {
        lemma_successor_is_move(s, n - 1, k)
    } else {
        let j = k - before.len();
        let a = s.moves(n - 1)[j];
        assert(s.train_successors(n - 1)[j] == s.outcome(n - 1, a));
        (n - 1, a)
    }
}

/// A state that follows one that the search may come to is such a state
/// too, with the same required actions and route paths, and with a
/// makespan that is no smaller.
pub proof fn lemma_follows_inv(a: StateView, b: StateView)
    requires
        a.inv(),
        follows(a, b),
    ensures
        b.inv(),
        a.makespan() <= b.makespan(),
        b.required == a.required,
        b.paths == a.paths,
        b.limit == a.limit,
        b.fleet.len() == a.fleet.len(),
{
    let k = choose|k: int| 0 <= k < a.successors().len() && (#[trigger] a.successors()[k]).0 == b;
    let m = lemma_successor_is_move(a, a.fleet.len() as int, k);
    lemma_inv_after(a, m.0, m.1);
}

/// On a way of states that follow one another, from a state that the
/// search may come to, every state is such a state, and the cost of the
/// way up to it is what its makespan is above that of the first.
pub proof fn lemma_plan_prefix(path: Seq<StateView>, n: int)
    requires
        path.len() > 0,
        path[0].inv(),
        is_way(path),
        0 <= n < path.len(),
    ensures
        path[n].inv(),
        path[0].makespan() <= path[n].makespan(),
        plan_cost(path.take(n + 1)) == path[n].makespan() - path[0].makespan(),
        path[n].required == path[0].required,
        path[n].paths == path[0].paths,
        path[n].limit == path[0].limit,
        path[n].fleet.len() == path[0].fleet.len(),
    decreases n,
{
    if n > 0 {
        lemma_plan_prefix(path, n - 1);
        assert(follows(path[n - 1], path[n]));
        lemma_follows_inv(path[n - 1], path[n]);
        assert(path.take(n + 1).drop_last() =~= path.take(n));
        assert(path.take(n + 1).last() == path[n]);
        assert(path.take(n + 1)[n - 1] == path[n - 1]);
    }
}

/// The cost of a plan is what the makespan of its last state is above
/// that of its first, and its last state is one that the search may come
/// to.
pub proof fn lemma_plan_cost(start: StateView, path: Seq<StateView>)
    requires
        start.inv(),
        is_plan(start, path),
    ensures
        path.last().inv(),
        plan_cost(path) == path.last().makespan() - start.makespan(),
{
    lemma_plan_prefix(path, path.len() - 1);
    assert(path.take(path.len() as int) =~= path);
}

/// Whether no train of the state has taken an action yet: the search
/// starts from such a state.
pub open spec fn is_start(s: StateView) -> bool {
    forall|i: int| 0 <= i < s.fleet.len() ==> (#[trigger] s.fleet[i]).taken.len() == 0
}

/// A fleet of which no train has taken an action has taken none.
pub proof fn lemma_nothing_taken(fleet: Seq<TrainStateView>)
    requires
        forall|i: int| 0 <= i < fleet.len() ==> (#[trigger] fleet[i]).taken.len() == 0,
    ensures
        fleet_taken(fleet).len() == 0,
    decreases fleet.len(),
{
    if fleet.len() > 0 {
        assert forall|i: int| 0 <= i < fleet.drop_last().len() implies (
        #[trigger] fleet.drop_last()[i]).taken.len() == 0 by {
            assert(fleet.drop_last()[i] == fleet[i]);
        }
        lemma_nothing_taken(fleet.drop_last());
        assert(fleet[fleet.len() - 1].taken.len() == 0);
    }
}

/// A state from which the search starts is sound.
pub proof fn lemma_start_sound(s: StateView)
    requires
        is_start(s),
    ensures
        s.sound(),
{
    lemma_nothing_taken(s.fleet);
    assert forall|i: int| 0 <= i < s.fleet.len() implies (#[trigger] s.fleet[i]).sound() by {
        assert(s.fleet[i].taken.len() == 0);
    }
}

/// Every state on a way from a state from which the search starts is
/// sound, and has the required actions and the trains of that state.
pub proof fn lemma_way_sound(path: Seq<StateView>, n: int)
    requires
        is_way(path),
        0 <= n < path.len(),
        is_start(path[0]),
    ensures
        path[n].sound(),
        path[n].required == path[0].required,
        path[n].fleet.len() == path[0].fleet.len(),
    decreases n,
{
    if n == 0 {
        lemma_start_sound(path[0]);
    } else {
        lemma_way_sound(path, n - 1);
        let a = path[n - 1];
        let b = path[n];
        assert(follows(a, b));
        let k = choose|k: int|
            0 <= k < a.successors().len() && (#[trigger] a.successors()[k]).0 == b;
        let m = lemma_successor_is_move(a, a.fleet.len() as int, k);
        lemma_move_is_allowed(a, m.0, m.1);
        lemma_sound_after(a, m.0, m.1);
    }
}

/// In every state that the search comes to, no train holds more than its
/// capacity.
pub proof fn lemma_cargo_within_capacity(path: Seq<StateView>, n: int, i: int)
    requires
        is_way(path),
        is_start(path[0]),
        0 <= n < path.len(),
        0 <= i < path[n].fleet.len(),
    ensures
        path[n].fleet[i].weight() <= path[n].fleet[i].train.capacity,
{
    lemma_way_sound(path, n);
    assert(path[n].fleet[i].sound());
}

/// Whether action `pick` of `taken` picks up the package that action `j`
/// is about, comes before it, and no action between the two drops that
/// package.
pub open spec fn is_pick_before(taken: Seq<ActionView>, pick: int, j: int) -> bool {
    &&& 0 <= pick < j
    &&& taken[pick] is Pick
    &&& taken[pick].package() == taken[j].package()
    &&& forall|k: int|
        pick < k < j ==> !(#[trigger] taken[k] is Drop && taken[k].package() == taken[j].package())
}

/// In every state that the search comes to, a train that has dropped a
/// package has picked it up before, and has not dropped it in between.
pub proof fn lemma_drop_follows_pick(path: Seq<StateView>, n: int, i: int, j: int)
    requires
        is_way(path),
        is_start(path[0]),
        0 <= n < path.len(),
        0 <= i < path[n].fleet.len(),
        0 <= j < path[n].fleet[i].taken.len(),
        path[n].fleet[i].taken[j] is Drop,
    ensures
        exists|pick: int| is_pick_before(path[n].fleet[i].taken, pick, j),
{
    lemma_way_sound(path, n);
    let taken = path[n].fleet[i].taken;
    let p = taken[j].package();
    assert(path[n].fleet[i].sound());
    assert(carries(taken.take(j), p));
    let before = taken.take(j);
    let pick = choose|pick: int|
        0 <= pick < before.len() && #[trigger] before[pick] is Pick && before[pick].package() == p
            && forall|k: int|
            pick < k < before.len() ==> !(#[trigger] before[k] is Drop && before[k].package()
                == p);
    assert(taken[pick] == before[pick]);
    assert forall|k: int| pick < k < j implies !(#[trigger] taken[k] is Drop && taken[k].package()
        == p) by {
        assert(taken[k] == before[k]);
    }
    assert(is_pick_before(taken, pick, j));
}

/// An action is taken by the fleet just when a train of it has taken it.
pub proof fn lemma_fleet_taken_member(fleet: Seq<TrainStateView>, a: ActionView)
    ensures
        fleet_taken(fleet).contains(a) <==> exists|i: int|
            0 <= i < fleet.len() && (#[trigger] fleet[i]).taken.contains(a),
    decreases fleet.len(),
{
    if fleet.len() > 0 {
        let rest = fleet.drop_last();
        let last = fleet.last();
        lemma_fleet_taken_member(rest, a);
        let all = fleet_taken(fleet);
        if all.contains(a) {
            let k = choose|k: int| 0 <= k < all.len() && all[k] == a;
            if k < fleet_taken(rest).len() {
                assert(fleet_taken(rest)[k] == a);
                let i = choose|i: int| 0 <= i < rest.len() && (#[trigger] rest[i]).taken.contains(a);
                assert(fleet[i] == rest[i]);
            } else {
                assert(last.taken[k - fleet_taken(rest).len()] == a);
                assert(fleet[fleet.len() - 1].taken.contains(a));
            }
        }
        if exists|i: int| 0 <= i < fleet.len() && (#[trigger] fleet[i]).taken.contains(a) {
            let i = choose|i: int| 0 <= i < fleet.len() && (#[trigger] fleet[i]).taken.contains(a);
            if i < rest.len() {
                assert(rest[i] == fleet[i]);
                let k = choose|k: int| 0 <= k < fleet_taken(rest).len() && fleet_taken(rest)[k] == a;
                assert(all[k] == a);
            } else {
                let k = choose|k: int| 0 <= k < last.taken.len() && last.taken[k] == a;
                assert(all[fleet_taken(rest).len() + k] == a);
            }
        }
    }
}

/// In a state in which the work is done and that the search comes to,
/// the actions taken are the required actions, none of them twice.
pub proof fn lemma_goal_takes_required(path: Seq<StateView>, n: int)
    requires
        is_way(path),
        is_start(path[0]),
        0 <= n < path.len(),
        path[n].is_goal(),
    ensures
        path[n].taken().no_duplicates(),
        forall|a: ActionView| #[trigger]
            path[n].taken().contains(a) <==> path[n].required.contains(a),
{
    lemma_way_sound(path, n);
    let s = path[n];
    assert forall|a: ActionView| s.required.contains(a) implies #[trigger] s.taken().contains(
        a,
    ) by {
        lemma_filter_member(s.required, |x: ActionView| !s.taken().contains(x), a);
        if !s.taken().contains(a) {
            assert(s.untaken().contains(a));
        }
    }
}

/// Whether action `pick` of `taken` picks package `p` up where it waits,
/// action `drop` drops it off where it has to go, and no other action of
/// `taken` is about `p`.
pub open spec fn is_delivery_of(taken: Seq<ActionView>, p: PackageView, pick: int, drop: int) -> bool {
    &&& 0 <= pick < taken.len()
    &&& 0 <= drop < taken.len()
    &&& taken[pick] == ActionView::Pick(p, p.from)
    &&& taken[drop] == ActionView::Drop(p, p.to)
    &&& forall|k: int|
        0 <= k < taken.len() && (#[trigger] taken[k]).package() == p ==> k == pick || k == drop
}

/// In a state in which the work is done and that the search comes to,
/// every package has been picked up once and dropped off once.
pub proof fn lemma_goal_delivers_once(
    packages: Seq<PackageView>,
    path: Seq<StateView>,
    n: int,
    m: int,
)
    requires
        is_way(path),
        is_start(path[0]),
        path[0].required == required_actions(packages),
        0 <= n < path.len(),
        path[n].is_goal(),
        0 <= m < packages.len(),
    ensures
        exists|pick: int, drop: int| is_delivery_of(path[n].taken(), packages[m], pick, drop),
{
    lemma_way_sound(path, n);
    lemma_goal_takes_required(path, n);
    let s = path[n];
    let taken = s.taken();
    let p = packages[m];
    let required = required_actions(packages);
    let the_pick = ActionView::Pick(p, p.from);
    let the_drop = ActionView::Drop(p, p.to);
    assert(required[2 * m] == the_pick);
    assert(required[2 * m + 1] == the_drop);
    assert(s.required.contains(the_pick));
    assert(s.required.contains(the_drop));
    assert(taken.contains(the_pick));
    assert(taken.contains(the_drop));
    let pick = choose|k: int| 0 <= k < taken.len() && taken[k] == the_pick;
    let drop = choose|k: int| 0 <= k < taken.len() && taken[k] == the_drop;
    assert forall|k: int| 0 <= k < taken.len() && (#[trigger] taken[k]).package() == p implies k
        == pick || k == drop by {
        assert(taken.contains(taken[k]));
        assert(s.required.contains(taken[k]));
        let r = choose|r: int| 0 <= r < required.len() && required[r] == taken[k];
        assert(required[r].package() == packages[r / 2]);
        assert(taken[k] == the_pick || taken[k] == the_drop);
    }
    assert(is_delivery_of(taken, p, pick, drop));
}

/// No state that follows has a smaller makespan, and the cost of getting
/// to it is what its makespan is greater by.
pub proof fn lemma_successor_costs(s: StateView, k: int)
    requires
        0 <= k < s.successors().len(),
    ensures
        s.makespan() <= s.successors()[k].0.makespan(),
        s.makespan() + s.successors()[k].1 == s.successors()[k].0.makespan(),
{
    let m = lemma_successor_is_move(s, s.fleet.len() as int, k);
    lemma_duration_grows(s.fleet[m.0], s.paths, m.1);
    lemma_fleet_duration_grows(s.paths, s.fleet, m.0, s.fleet[m.0].take(m.1));
}

/// The routes of a train's instructions take, together, the time that
/// the train travels; no train travels longer than the makespan, and one
/// of them, if there is one, just as long.
pub proof fn lemma_instruction_times(s: StateView)
    ensures
        forall|i: int|
            0 <= i < s.fleet.len() ==> instructions_time(
                (#[trigger] s.fleet[i]).instructions(s.paths),
            ) == s.fleet[i].duration(s.paths) && s.fleet[i].duration(s.paths) <= s.makespan(),
        s.fleet.len() > 0 ==> exists|i: int|
            0 <= i < s.fleet.len() && instructions_time(
                (#[trigger] s.fleet[i]).instructions(s.paths),
            ) == s.makespan(),
{
    lemma_fleet_duration_is_max(s.paths, s.fleet);
    assert forall|i: int| 0 <= i < s.fleet.len() implies instructions_time(
        (#[trigger] s.fleet[i]).instructions(s.paths),
    ) == s.fleet[i].duration(s.paths) by {
        let t = s.fleet[i];
        lemma_legs_len(s.paths, t.train.initial_station, t.taken);
        lemma_train_instructions_time(t.train, t.legs(s.paths), t.taken);
    }
    if s.fleet.len() > 0 {
        let i = choose|i: int|
            0 <= i < s.fleet.len() && (#[trigger] s.fleet[i]).duration(s.paths) == fleet_duration(
                s.paths,
                s.fleet,
            );
        assert(instructions_time(s.fleet[i].instructions(s.paths)) == s.makespan());
    }
}

} // verus!
