//! The planner's states: which train has committed to which actions, what
//! that costs, and which states can follow.

use crate::args::{NetworkView, PackageView, RouteView, TrainView};
use crate::model::route_path::{
    find_path, is_table_of, path_time, within, RouteMap, RoutePath, RoutePathView,
};
use crate::model::required_actions;
use crate::model::{Instruction, InstructionView, Package, Station};
use std::rc::Rc;
use vstd::prelude::*;

verus! {

/// One thing a train does with one package: pick it up where it waits, or
/// drop it off where it has to go.
#[derive(Debug, PartialEq, Eq, Hash)]
pub enum Action {
    Pick(Package, Station),
    Drop(Package, Station),
}

/// What an action is in contracts.
pub enum ActionView {
    Pick(PackageView, Seq<char>),
    Drop(PackageView, Seq<char>),
}

impl ActionView {
    /// The package that the action is about.
    pub open spec fn package(self) -> PackageView {
        match self {
            ActionView::Pick(p, _) => p,
            ActionView::Drop(p, _) => p,
        }
    }

    /// The station at which the action takes place.
    pub open spec fn station(self) -> Seq<char> {
        match self {
            ActionView::Pick(_, s) => s,
            ActionView::Drop(_, s) => s,
        }
    }
}

impl View for Action {
    type V = ActionView;

    open spec fn view(&self) -> ActionView {
        match self {
            Action::Pick(p, s) => ActionView::Pick(p@, s@),
            Action::Drop(p, s) => ActionView::Drop(p@, s@),
        }
    }
}

impl Clone for Action {
    fn clone(&self) -> (r: Self)
        ensures
            r@ == self@,
    {
        match self {
            Action::Pick(p, s) => Action::Pick(p.clone(), s.clone()),
            Action::Drop(p, s) => Action::Drop(p.clone(), s.clone()),
        }
    }
}

impl Action {
    /// The package that the action is about.
    pub fn package(&self) -> (r: Package)
        ensures
            r@ == self@.package(),
    {
        match self {
            Action::Pick(p, _) => p.clone(),
            Action::Drop(p, _) => p.clone(),
        }
    }

    /// The station at which the action takes place.
    pub fn station(&self) -> (r: Station)
        ensures
            r@ == self@.station(),
    {
        match self {
            Action::Pick(_, s) => s.clone(),
            Action::Drop(_, s) => s.clone(),
        }
    }

    /// Whether two actions are of the same kind, on the same package, at
    /// the same station.
    pub fn same(&self, other: &Action) -> (r: bool)
        ensures
            r == (self@ == other@),
    {
        match (self, other) {
            (Action::Pick(p, s), Action::Pick(q, t)) => p.same(q) && s.same(t),
            (Action::Drop(p, s), Action::Drop(q, t)) => p.same(q) && s.same(t),
            _ => false,
        }
    }
}

/// How one action stands to another in the order of actions.
#[derive(Debug, Clone, Copy, PartialEq, Eq, Structural)]
pub enum Precedence {
    Before,
    Same,
    After,
}

impl ActionView {
    /// How this action stands to `other` in the order of actions: every
    /// pick comes before every drop, and two actions of one kind stand
    /// the same.
    pub open spec fn precedence(self, other: ActionView) -> Precedence {
        if self is Pick && other is Drop {
            Precedence::Before
        } else if self is Drop && other is Pick {
            Precedence::After
        } else {
            Precedence::Same
        }
    }
}

impl Action {
    /// How this action stands to `other` in the order of actions, by
    /// which the pick of a package comes before its drop.
    pub fn precedence(&self, other: &Action) -> (r: Precedence)
        ensures
            r == self@.precedence(other@),
    {
        match (self, other) {
            (Action::Pick(_, _), Action::Drop(_, _)) => Precedence::Before,
            (Action::Drop(_, _), Action::Pick(_, _)) => Precedence::After,
            _ => Precedence::Same,
        }
    }
}

/// The order of actions is an order: an action stands the same to
/// itself, two actions stand to each other in opposite ways, and what
/// comes before an action comes before all that the action does not come
/// after.
pub proof fn lemma_precedence_is_order(a: ActionView, b: ActionView, c: ActionView)
    ensures
        a.precedence(a) == Precedence::Same,
        a.precedence(b) == Precedence::Before <==> b.precedence(a) == Precedence::After,
        a.precedence(b) == Precedence::Same <==> b.precedence(a) == Precedence::Same,
        a.precedence(b) == Precedence::Before && b.precedence(c) != Precedence::After
            ==> a.precedence(c) == Precedence::Before,
        a.precedence(b) == Precedence::Same && b.precedence(c) == Precedence::Same
            ==> a.precedence(c) == Precedence::Same,
{
}

/// The views of a list of actions.
pub open spec fn action_views(actions: Seq<Action>) -> Seq<ActionView> {
    actions.map_values(|a: Action| a@)
}

/// The views of a list of packages.
pub open spec fn package_views(packages: Seq<Package>) -> Seq<PackageView> {
    packages.map_values(|p: Package| p@)
}

/// A copy of the actions.
pub fn copy_actions(actions: &Vec<Action>) -> (r: Vec<Action>)
    ensures
        action_views(r@) == action_views(actions@),
{
    let mut out: Vec<Action> = Vec::new();
    let mut i: usize = 0;
    while i < actions.len()
        invariant
            i <= actions.len(),
            out.len() == i,
            forall|j: int| 0 <= j < i ==> out[j]@ == actions[j]@,
        decreases actions.len() - i,
    {
        out.push(actions[i].clone());
        i = i + 1;
    }
    assert(action_views(out@) =~= action_views(actions@));
    out
}

/// Where a train stands that started at `initial` and has taken `taken`:
/// at the station of its last action, or where it started.
pub open spec fn position(initial: Seq<char>, taken: Seq<ActionView>) -> Seq<char> {
    if taken.len() == 0 {
        initial
    } else {
        taken.last().station()
    }
}

/// The packages of `packages` other than `p`.
pub open spec fn without(packages: Seq<PackageView>, p: PackageView) -> Seq<PackageView> {
    packages.filter(|q: PackageView| q != p)
}

/// The cargo of a train that has taken `taken`: every pick adds its
/// package, every drop removes it.
pub open spec fn carried(taken: Seq<ActionView>) -> Seq<PackageView>
    decreases taken.len(),
{
    if taken.len() == 0 {
        Seq::empty()
    } else {
        match taken.last() {
            ActionView::Pick(p, _) => carried(taken.drop_last()).push(p),
            ActionView::Drop(p, _) => without(carried(taken.drop_last()), p),
        }
    }
}

/// The weight of the given packages together.
pub open spec fn weight_of(packages: Seq<PackageView>) -> nat
    decreases packages.len(),
{
    if packages.len() == 0 {
        0
    } else {
        weight_of(packages.drop_last()) + packages.last().weight
    }
}

/// Whether a train that has taken `taken` holds package `p`: it has picked
/// `p` up and has not dropped it since.
pub open spec fn carries(taken: Seq<ActionView>, p: PackageView) -> bool {
    exists|i: int|
        0 <= i < taken.len() && #[trigger] taken[i] is Pick && taken[i].package() == p && forall|
            k: int,
        |
            i < k < taken.len() ==> !(#[trigger] taken[k] is Drop && taken[k].package() == p)
}

/// What one more action does to whether `p` is held.
pub proof fn lemma_carries_push(taken: Seq<ActionView>, a: ActionView, p: PackageView)
    ensures
        carries(taken.push(a), p) == if a.package() == p {
            a is Pick
        } else {
            carries(taken, p)
        },
{
    let next = taken.push(a);
    let n = taken.len() as int;
    assert(next[n] == a);
    if carries(next, p) {
        let i = choose|i: int|
            0 <= i < next.len() && #[trigger] next[i] is Pick && next[i].package() == p && forall|
                k: int,
            |
                i < k < next.len() ==> !(#[trigger] next[k] is Drop && next[k].package() == p);
        if i < n {
            assert(!(next[n] is Drop && next[n].package() == p));
            assert(taken[i] == next[i]);
            assert forall|k: int| i < k < taken.len() implies !(#[trigger] taken[k] is Drop
                && taken[k].package() == p) by {
                assert(taken[k] == next[k]);
            }
        }
    }
    if a.package() == p && a is Pick {
        assert(next[n] is Pick && next[n].package() == p);
    }
    if a.package() != p && carries(taken, p) {
        let i = choose|i: int|
            0 <= i < taken.len() && #[trigger] taken[i] is Pick && taken[i].package() == p
                && forall|k: int|
                i < k < taken.len() ==> !(#[trigger] taken[k] is Drop && taken[k].package() == p);
        assert(next[i] == taken[i]);
        assert forall|k: int| i < k < next.len() implies !(#[trigger] next[k] is Drop
            && next[k].package() == p) by {
            if k < n {
                assert(taken[k] == next[k]);
            }
        }
    }
}

/// What is left of a cargo without `p` is what the cargo holds other
/// than `p`.
pub proof fn lemma_without_member(packages: Seq<PackageView>, p: PackageView, x: PackageView)
    ensures
        without(packages, p).contains(x) <==> packages.contains(x) && x != p,
    decreases packages.len(),
{
    reveal(Seq::filter);
    if packages.len() > 0 {
        let rest = packages.drop_last();
        let last = packages.last();
        lemma_without_member(rest, p, x);
        let left = without(packages, p);
        if packages.contains(x) {
            let k = choose|k: int| 0 <= k < packages.len() && packages[k] == x;
            if k < rest.len() {
                assert(rest[k] == x);
            }
        }
        if rest.contains(x) {
            let k = choose|k: int| 0 <= k < rest.len() && rest[k] == x;
            assert(packages[k] == x);
        }
        if last != p {
            assert(left == without(rest, p).push(last));
            assert(left.last() == last);
            if without(rest, p).contains(x) {
                let k = choose|k: int| 0 <= k < without(rest, p).len() && without(rest, p)[k] == x;
                assert(left[k] == x);
            }
            if left.contains(x) {
                let k = choose|k: int| 0 <= k < left.len() && left[k] == x;
                if k < left.len() - 1 {
                    assert(without(rest, p)[k] == x);
                }
            }
        }
    }
}

/// A train holds a package just when the package is among its cargo.
pub proof fn lemma_carries_is_cargo(taken: Seq<ActionView>, p: PackageView)
    ensures
        carries(taken, p) <==> carried(taken).contains(p),
    decreases taken.len(),
{
    if taken.len() > 0 {
        let rest = taken.drop_last();
        let last = taken.last();
        lemma_carries_is_cargo(rest, p);
        lemma_carries_push(rest, last, p);
        assert(rest.push(last) =~= taken);
        let before = carried(rest);
        match last {
            ActionView::Pick(q, _) => {
                let after = before.push(q);
                if before.contains(p) {
                    let k = choose|k: int| 0 <= k < before.len() && before[k] == p;
                    assert(after[k] == p);
                }
                if q == p {
                    assert(after[before.len() as int] == p);
                }
                if after.contains(p) && q != p {
                    let k = choose|k: int| 0 <= k < after.len() && after[k] == p;
                    assert(before[k] == p);
                }
            },
            ActionView::Drop(q, _) => {
                lemma_without_member(before, q, p);
            },
        }
    }
}

/// Taking packages out of a cargo never makes it heavier.
pub proof fn lemma_without_is_lighter(packages: Seq<PackageView>, p: PackageView)
    ensures
        weight_of(without(packages, p)) <= weight_of(packages),
    decreases packages.len(),
{
    reveal(Seq::filter);
    if packages.len() > 0 {
        lemma_without_is_lighter(packages.drop_last(), p);
        if packages.last() != p {
            assert(without(packages, p).drop_last() =~= without(packages.drop_last(), p));
        }
    }
}

/// The state of one train: the train, and the actions it has committed
/// to, in the order in which it carries them out.
#[derive(Debug, PartialEq, Eq, Hash)]
pub struct Train {
    pub train: crate::model::Train,
    pub taken_actions: Vec<Action>,
}

/// What the state of a train is in contracts.
pub struct TrainStateView {
    pub train: TrainView,
    pub taken: Seq<ActionView>,
}

impl View for Train {
    type V = TrainStateView;

    open spec fn view(&self) -> TrainStateView {
        TrainStateView { train: self.train@, taken: action_views(self.taken_actions@) }
    }
}

impl Clone for Train {
    fn clone(&self) -> (r: Self)
        ensures
            r@ == self@,
    {
        Train { train: self.train.clone(), taken_actions: copy_actions(&self.taken_actions) }
    }
}

impl TrainStateView {
    /// The weight of what the train holds.
    pub open spec fn weight(self) -> nat {
        weight_of(carried(self.taken))
    }

    /// Whether the train may pick `p` up: a path leads from where the
    /// train started to where `p` waits, and `p` fits in.
    pub open spec fn can_pick(self, paths: Seq<RoutePathView>, p: PackageView) -> bool {
        &&& find_path(paths, self.train.initial_station, p.from) is Some
        &&& p.weight + self.weight() <= self.train.capacity
    }

    /// Whether the train may drop `p` off: it holds `p`.
    pub open spec fn can_drop(self, p: PackageView) -> bool {
        carries(self.taken, p)
    }

    /// Whether the train may take the action.
    pub open spec fn can_take(self, paths: Seq<RoutePathView>, a: ActionView) -> bool {
        match a {
            ActionView::Pick(p, _) => self.can_pick(paths, p),
            ActionView::Drop(p, _) => self.can_drop(p),
        }
    }

    /// The state after one more action.
    pub open spec fn take(self, a: ActionView) -> TrainStateView {
        TrainStateView { train: self.train, taken: self.taken.push(a) }
    }
}

impl Train {
    /// Commits the train to one more action.
    pub fn take_action(&mut self, action: &Action)
        ensures
            final(self)@ == old(self)@.take(action@),
    {
        self.taken_actions.push(action.clone());
        assert(action_views(self.taken_actions@) =~= action_views(old(self).taken_actions@).push(
            action@,
        ));
    }

    /// Whether the train may drop the package off: it holds it.
    pub fn can_drop(&self, package: &Package) -> (r: bool)
        ensures
            r == self@.can_drop(package@),
    {
        let ghost taken = self@.taken;
        let mut held = false;
        let mut i: usize = 0;
        assert(!carries(taken.take(0), package@));
        while i < self.taken_actions.len()
            invariant
                i <= self.taken_actions.len(),
                taken == self@.taken,
                taken.len() == self.taken_actions.len(),
                held == carries(taken.take(i as int), package@),
            decreases self.taken_actions.len() - i,
        {
            proof {
                lemma_carries_push(taken.take(i as int), taken[i as int], package@);
                assert(taken.take(i + 1) =~= taken.take(i as int).push(taken[i as int]));
            }
            match &self.taken_actions[i] {
                Action::Pick(p, _) => {
                    if p.same(package) {
                        held = true;
                    }
                },
                Action::Drop(p, _) => {
                    if p.same(package) {
                        held = false;
                    }
                },
            }
            i = i + 1;
        }
        assert(taken.take(i as int) =~= taken);
        held
    }
}

/// Carrying on with a cargo: the weight after the first packages is no
/// more than the weight of all of them.
pub proof fn lemma_weight_prefix(packages: Seq<PackageView>, k: int)
    requires
        0 <= k <= packages.len(),
    ensures
        weight_of(packages.take(k)) <= weight_of(packages),
    decreases packages.len() - k,
{
    if k == packages.len() {
        assert(packages.take(k) =~= packages);
    } else {
        lemma_weight_prefix(packages, k + 1);
        assert(packages.take(k + 1).drop_last() =~= packages.take(k));
    }
}

/// The packages of `packages` other than `p`, in their order.
pub fn remove_package(packages: Vec<Package>, p: &Package) -> (r: Vec<Package>)
    ensures
        package_views(r@) == without(package_views(packages@), p@),
{
    let ghost all = package_views(packages@);
    let mut out: Vec<Package> = Vec::new();
    let mut i: usize = 0;
    proof {
        reveal(Seq::filter);
        assert(package_views(out@) =~= without(all.take(0), p@));
    }
    while i < packages.len()
        invariant
            i <= packages.len(),
            all == package_views(packages@),
            package_views(out@) == without(all.take(i as int), p@),
        decreases packages.len() - i,
    {
        proof {
            all.take(i as int).lemma_filter_push(all[i as int], |q: PackageView| q != p@);
            assert(all.take(i + 1) =~= all.take(i as int).push(all[i as int]));
        }
        if !packages[i].same(p) {
            let ghost before = package_views(out@);
            out.push(packages[i].clone());
            assert(package_views(out@) =~= before.push(all[i as int]));
        }
        i = i + 1;
    }
    assert(all.take(i as int) =~= all);
    out
}

impl Train {
    /// What the train holds, in the order in which it was picked up.
    pub fn current_packages(&self) -> (r: Vec<Package>)
        ensures
            package_views(r@) == carried(self@.taken),
    {
        let ghost taken = self@.taken;
        let mut held: Vec<Package> = Vec::new();
        let mut i: usize = 0;
        assert(package_views(held@) =~= carried(taken.take(0)));
        while i < self.taken_actions.len()
            invariant
                i <= self.taken_actions.len(),
                taken == self@.taken,
                taken.len() == self.taken_actions.len(),
                package_views(held@) == carried(taken.take(i as int)),
            decreases self.taken_actions.len() - i,
        {
            assert(taken.take(i + 1).drop_last() =~= taken.take(i as int));
            assert(taken.take(i + 1).last() == self.taken_actions[i as int]@);
            match &self.taken_actions[i] {
                Action::Pick(p, _) => {
                    let ghost before = package_views(held@);
                    held.push(p.clone());
                    assert(package_views(held@) =~= before.push(p@));
                },
                Action::Drop(p, _) => {
                    held = remove_package(held, p);
                },
            }
            i = i + 1;
        }
        assert(taken.take(i as int) =~= taken);
        held
    }

    /// The weight of what the train holds.
    pub fn current_weight(&self) -> (r: u32)
        requires
            self@.weight() <= u32::MAX,
        ensures
            r == self@.weight(),
    {
        let held = self.current_packages();
        let ghost all = package_views(held@);
        let mut total: u32 = 0;
        let mut i: usize = 0;
        while i < held.len()
            invariant
                i <= held.len(),
                all == package_views(held@),
                all.len() == held.len(),
                total == weight_of(all.take(i as int)),
                weight_of(all) <= u32::MAX,
            decreases held.len() - i,
        {
            proof {
                lemma_weight_prefix(all, i + 1);
                assert(all.take(i + 1).drop_last() =~= all.take(i as int));
            }
            total = total + held[i].weight;
            i = i + 1;
        }
        assert(all.take(i as int) =~= all);
        total
    }

    /// Whether the train may pick the package up: a path leads from where
    /// the train started to where the package waits, and the package fits
    /// in.
    pub fn can_pick(&self, package: &Package, route_map: &RouteMap) -> (r: bool)
        requires
            self@.weight() <= u32::MAX,
        ensures
            r == self@.can_pick(route_map@, package@),
    {
        let is_route_exist = route_map.get(&self.train.initial_station, package.from()).is_some();
        let held: u64 = self.current_weight() as u64;
        let is_enough_room = package.weight as u64 + held <= self.train.capacity as u64;
        is_route_exist && is_enough_room
    }

    /// Whether the train may take the action.
    pub fn can_take(&self, action: &Action, route_map: &RouteMap) -> (r: bool)
        requires
            self@.weight() <= u32::MAX,
        ensures
            r == self@.can_take(route_map@, action@),
    {
        match action {
            Action::Pick(package, _) => self.can_pick(package, route_map),
            Action::Drop(package, _) => self.can_drop(package),
        }
    }
}

/// The actions of `actions` that the train may take, in their order.
pub open spec fn takeable(
    train: TrainStateView,
    paths: Seq<RoutePathView>,
    actions: Seq<ActionView>,
) -> Seq<ActionView> {
    actions.filter(|a: ActionView| train.can_take(paths, a))
}

impl Train {
    /// The actions of `actions` that the train may take, in their order.
    pub fn available_actions<'b>(
        &'b self,
        actions: &'b [Action],
        route_map: &RouteMap,
    ) -> (r: Vec<&'b Action>)
        requires
            self@.weight() <= u32::MAX,
        ensures
            r@.map_values(|a: &Action| a@) == takeable(self@, route_map@, action_views(actions@)),
    {
        let ghost all = action_views(actions@);
        let ghost paths = route_map@;
        let ghost me = self@;
        let mut out: Vec<&Action> = Vec::new();
        let mut i: usize = 0;
        proof {
            reveal(Seq::filter);
            assert(out@.map_values(|a: &Action| a@) =~= takeable(me, paths, all.take(0)));
        }
        while i < actions.len()
            invariant
                i <= actions.len(),
                all == action_views(actions@),
                paths == route_map@,
                me == self@,
                me.weight() <= u32::MAX,
                out@.map_values(|a: &Action| a@) == takeable(me, paths, all.take(i as int)),
            decreases actions.len() - i,
        {
            proof {
                all.take(i as int).lemma_filter_push(
                    all[i as int],
                    |a: ActionView| me.can_take(paths, a),
                );
                assert(all.take(i + 1) =~= all.take(i as int).push(all[i as int]));
            }
            if self.can_take(&actions[i], route_map) {
                let ghost before = out@.map_values(|a: &Action| a@);
                out.push(&actions[i]);
                assert(out@.map_values(|a: &Action| a@) =~= before.push(all[i as int]));
            }
            i = i + 1;
        }
        assert(all.take(i as int) =~= all);
        out
    }
}

/// Whether the table has a path for every leg of the train's way: from
/// where it started to its first action, and from each action to the next.
pub open spec fn chain_resolves(
    paths: Seq<RoutePathView>,
    initial: Seq<char>,
    taken: Seq<ActionView>,
) -> bool
    decreases taken.len(),
{
    taken.len() == 0 || {
        &&& chain_resolves(paths, initial, taken.drop_last())
        &&& find_path(paths, position(initial, taken.drop_last()), taken.last().station()) is Some
    }
}

/// The paths that the train travels, one for each action it has taken.
pub open spec fn legs(paths: Seq<RoutePathView>, initial: Seq<char>, taken: Seq<ActionView>) -> Seq<
    RoutePathView,
>
    decreases taken.len(),
{
    if taken.len() == 0 {
        Seq::empty()
    } else {
        legs(paths, initial, taken.drop_last()).push(
            find_path(paths, position(initial, taken.drop_last()), taken.last().station())->0,
        )
    }
}

/// The time that the given paths take one after the other.
pub open spec fn legs_time(legs: Seq<RoutePathView>) -> nat
    decreases legs.len(),
{
    if legs.len() == 0 {
        0
    } else {
        legs_time(legs.drop_last()) + path_time(legs.last().routes)
    }
}

/// The time that the train has travelled when it has carried out its
/// last action.
pub open spec fn duration(
    paths: Seq<RoutePathView>,
    initial: Seq<char>,
    taken: Seq<ActionView>,
) -> nat {
    legs_time(legs(paths, initial, taken))
}

/// Where the table has a path for every leg of a train's way, it has one
/// for every leg of the way's beginning.
pub proof fn lemma_chain_prefix(
    paths: Seq<RoutePathView>,
    initial: Seq<char>,
    taken: Seq<ActionView>,
    k: int,
)
    requires
        0 <= k <= taken.len(),
        chain_resolves(paths, initial, taken),
    ensures
        chain_resolves(paths, initial, taken.take(k)),
    decreases taken.len(),
{
    if k == taken.len() {
        assert(taken.take(k) =~= taken);
    } else {
        lemma_chain_prefix(paths, initial, taken.drop_last(), k);
        assert(taken.drop_last().take(k) =~= taken.take(k));
    }
}

/// A train travels one path for each action that it has taken.
pub proof fn lemma_legs_len(paths: Seq<RoutePathView>, initial: Seq<char>, taken: Seq<ActionView>)
    ensures
        legs(paths, initial, taken).len() == taken.len(),
    decreases taken.len(),
{
    if taken.len() > 0 {
        lemma_legs_len(paths, initial, taken.drop_last());
    }
}

/// The first paths of a way take no longer than all of them.
pub proof fn lemma_legs_time_prefix(legs: Seq<RoutePathView>, k: int)
    requires
        0 <= k <= legs.len(),
    ensures
        legs_time(legs.take(k)) <= legs_time(legs),
    decreases legs.len() - k,
{
    if k == legs.len() {
        assert(legs.take(k) =~= legs);
    } else {
        lemma_legs_time_prefix(legs, k + 1);
        assert(legs.take(k + 1).drop_last() =~= legs.take(k));
    }
}

/// No leg takes longer than the table's limit, so a train's time is at
/// most the limit for each of its actions.
pub proof fn lemma_duration_bound(
    paths: Seq<RoutePathView>,
    limit: nat,
    initial: Seq<char>,
    taken: Seq<ActionView>,
)
    requires
        within(paths, limit),
        chain_resolves(paths, initial, taken),
    ensures
        duration(paths, initial, taken) <= taken.len() * limit,
    decreases taken.len(),
{
    if taken.len() > 0 {
        let rest = taken.drop_last();
        lemma_duration_bound(paths, limit, initial, rest);
        let from = position(initial, rest);
        let to = taken.last().station();
        crate::model::route_path::lemma_find_path_is_entry(paths, from, to);
        let p = find_path(paths, from, to)->0;
        let i = choose|i: int| 0 <= i < paths.len() && paths[i] == p;
        assert(path_time(paths[i].routes) <= limit);
        assert(legs(paths, initial, taken).drop_last() =~= legs(paths, initial, rest));
        assert(rest.len() * limit + limit == taken.len() * limit) by (nonlinear_arith)
            requires
                rest.len() + 1 == taken.len(),
        ;
    }
}

impl TrainStateView {
    /// Whether the table has a path for each of the train's legs.
    pub open spec fn resolves(self, paths: Seq<RoutePathView>) -> bool {
        chain_resolves(paths, self.train.initial_station, self.taken)
    }

    /// The paths that the train travels.
    pub open spec fn legs(self, paths: Seq<RoutePathView>) -> Seq<RoutePathView> {
        legs(paths, self.train.initial_station, self.taken)
    }

    /// The time that the train travels.
    pub open spec fn duration(self, paths: Seq<RoutePathView>) -> nat {
        duration(paths, self.train.initial_station, self.taken)
    }

    /// Where the train stands.
    pub open spec fn position(self) -> Seq<char> {
        position(self.train.initial_station, self.taken)
    }

    /// Whether the table has a path from where the train stands to where
    /// the action takes place.
    pub open spec fn can_reach(self, paths: Seq<RoutePathView>, a: ActionView) -> bool {
        find_path(paths, self.position(), a.station()) is Some
    }
}

impl Train {
    /// The paths that the train travels, one for each action it has taken.
    pub fn optimal_route_paths(&self, route_map: &RouteMap) -> (r: Vec<RoutePath>)
        requires
            self@.resolves(route_map@),
        ensures
            r@.map_values(|p: RoutePath| p@) == self@.legs(route_map@),
    {
        let ghost paths = route_map@;
        let ghost initial = self@.train.initial_station;
        let ghost taken = self@.taken;
        let mut out: Vec<RoutePath> = Vec::new();
        let mut i: usize = 0;
        assert(out@.map_values(|p: RoutePath| p@) =~= legs(paths, initial, taken.take(0)));
        while i < self.taken_actions.len()
            invariant
                i <= self.taken_actions.len(),
                paths == route_map@,
                initial == self@.train.initial_station,
                taken == self@.taken,
                taken.len() == self.taken_actions.len(),
                chain_resolves(paths, initial, taken),
                out@.map_values(|p: RoutePath| p@) == legs(paths, initial, taken.take(i as int)),
            decreases self.taken_actions.len() - i,
        {
            proof {
                lemma_chain_prefix(paths, initial, taken, i + 1);
                assert(taken.take(i + 1).drop_last() =~= taken.take(i as int));
                assert(taken.take(i + 1).last() == taken[i as int]);
                if i > 0 {
                    assert(taken.take(i as int).last() == taken[i - 1]);
                }
            }
            let to = self.taken_actions[i].station();
            let found = if i == 0 {
                route_map.get(&self.train.initial_station, &to)
            } else {
                let from = self.taken_actions[i - 1].station();
                route_map.get(&from, &to)
            };
            match found {
                Some(path) => {
                    let ghost before = out@.map_values(|p: RoutePath| p@);
                    out.push(path.clone());
                    assert(out@.map_values(|p: RoutePath| p@) =~= before.push(path@));
                },
                None => {
                    assert(false);
                },
            }
            i = i + 1;
        }
        assert(taken.take(i as int) =~= taken);
        out
    }

    /// The time that the train has travelled when it has carried out its
    /// last action.
    pub fn optimal_duration_mins(&self, route_map: &RouteMap) -> (r: u32)
        requires
            self@.resolves(route_map@),
            self@.duration(route_map@) <= u32::MAX,
        ensures
            r == self@.duration(route_map@),
    {
        let route_paths = self.optimal_route_paths(route_map);
        let ghost all = route_paths@.map_values(|p: RoutePath| p@);
        let mut total: u32 = 0;
        let mut i: usize = 0;
        while i < route_paths.len()
            invariant
                i <= route_paths.len(),
                all == route_paths@.map_values(|p: RoutePath| p@),
                all.len() == route_paths.len(),
                legs_time(all) <= u32::MAX,
                total == legs_time(all.take(i as int)),
            decreases route_paths.len() - i,
        {
            proof {
                lemma_legs_time_prefix(all, i + 1);
                assert(all.take(i + 1).drop_last() =~= all.take(i as int));
                assert(all.take(i + 1).last() == route_paths[i as int]@);
            }
            total = total + route_paths[i].total_duration_mins();
            i = i + 1;
        }
        assert(all.take(i as int) =~= all);
        total
    }
}

/// The views of a list of instructions.
pub open spec fn instruction_views(instructions: Seq<Instruction>) -> Seq<InstructionView> {
    instructions.map_values(|i: Instruction| i@)
}

/// The instructions for one leg: one for each route, each beginning when
/// the one before it ends; the last one bears the action's package.
pub open spec fn sub_instructions(
    train: TrainView,
    routes: Seq<RouteView>,
    action: ActionView,
    begin_at: nat,
) -> Seq<InstructionView> {
    Seq::new(
        routes.len(),
        |k: int|
            InstructionView {
                begin_at: begin_at + path_time(routes.take(k)),
                train: train,
                route: routes[k],
                picked_package: if k == routes.len() - 1 && action is Pick {
                    Some(action.package())
                } else {
                    None
                },
                dropped_package: if k == routes.len() - 1 && action is Drop {
                    Some(action.package())
                } else {
                    None
                },
            },
    )
}

/// The instructions for a train that travels `legs` to carry out `taken`:
/// those of each leg, one leg after the other.
pub open spec fn train_instructions(
    train: TrainView,
    legs: Seq<RoutePathView>,
    taken: Seq<ActionView>,
) -> Seq<InstructionView>
    decreases taken.len(),
{
    if taken.len() == 0 || legs.len() != taken.len() {
        Seq::empty()
    } else {
        train_instructions(train, legs.drop_last(), taken.drop_last()) + sub_instructions(
            train,
            legs.last().routes,
            taken.last(),
            legs_time(legs.drop_last()),
        )
    }
}

/// The time that the routes of the given instructions take together.
pub open spec fn instructions_time(instructions: Seq<InstructionView>) -> nat
    decreases instructions.len(),
{
    if instructions.len() == 0 {
        0
    } else {
        instructions_time(instructions.drop_last()) + instructions.last().route.travel_time
    }
}

impl TrainStateView {
    /// The instructions that make the train carry out its actions.
    pub open spec fn instructions(self, paths: Seq<RoutePathView>) -> Seq<InstructionView> {
        train_instructions(self.train, self.legs(paths), self.taken)
    }
}

impl Train {
    /// The instructions for one leg of the train's way.
    pub fn sub_instructions(&self, route_path: &RoutePath, action: &Action, begin_at: u32) -> (r:
        Vec<Instruction>)
        requires
            begin_at + path_time(route_path@.routes) <= u32::MAX,
        ensures
            instruction_views(r@) == sub_instructions(
                self@.train,
                route_path@.routes,
                action@,
                begin_at as nat,
            ),
    {
        let ghost routes = route_path@.routes;
        let ghost want = sub_instructions(self@.train, routes, action@, begin_at as nat);
        let route_len = route_path.routes.len();
        let mut clock: u32 = begin_at;
        let mut out: Vec<Instruction> = Vec::new();
        let mut index: usize = 0;
        while index < route_len
            invariant
                index <= route_len,
                route_len == route_path.routes.len(),
                routes == route_path@.routes,
                routes.len() == route_len,
                want == sub_instructions(self@.train, routes, action@, begin_at as nat),
                begin_at + path_time(routes) <= u32::MAX,
                clock == begin_at + path_time(routes.take(index as int)),
                out.len() == index,
                forall|k: int| 0 <= k < index ==> out[k]@ == want[k],
            decreases route_len - index,
        {
            proof {
                crate::model::route_path::lemma_path_time_prefix(routes, index + 1);
                assert(routes.take(index + 1).drop_last() =~= routes.take(index as int));
            }
            let route = &route_path.routes[index];
            let is_last = route_len - 1 == index;
            let picked_package = match action {
                Action::Pick(p, _) => if is_last {
                    Some(p.clone())
                } else {
                    None
                },
                Action::Drop(_, _) => None,
            };
            let dropped_package = match action {
                Action::Pick(_, _) => None,
                Action::Drop(p, _) => if is_last {
                    Some(p.clone())
                } else {
                    None
                },
            };
            out.push(
                Instruction {
                    begin_at: clock,
                    train: self.train.clone(),
                    route: route.clone(),
                    picked_package,
                    dropped_package,
                },
            );
            clock = clock + route.travel_time;
            index = index + 1;
        }
        assert(instruction_views(out@) =~= want);
        out
    }

    /// The instructions that make the train carry out its actions, in the
    /// order in which it follows them.
    pub fn instructions(&self, route_map: &RouteMap) -> (r: Vec<Instruction>)
        requires
            self@.resolves(route_map@),
            self@.duration(route_map@) <= u32::MAX,
        ensures
            instruction_views(r@) == self@.instructions(route_map@),
    {
        let route_paths = self.optimal_route_paths(route_map);
        let ghost all = route_paths@.map_values(|p: RoutePath| p@);
        let ghost taken = self@.taken;
        let ghost train = self@.train;
        proof {
            lemma_legs_len(route_map@, train.initial_station, taken);
        }
        let mut begin_at: u32 = 0;
        let mut out: Vec<Instruction> = Vec::new();
        let mut i: usize = 0;
        assert(instruction_views(out@) =~= train_instructions(train, all.take(0), taken.take(0)));
        while i < route_paths.len()
            invariant
                i <= route_paths.len(),
                all == route_paths@.map_values(|p: RoutePath| p@),
                all.len() == route_paths.len(),
                taken == self@.taken,
                train == self@.train,
                taken.len() == all.len(),
                taken.len() == self.taken_actions.len(),
                legs_time(all) <= u32::MAX,
                begin_at == legs_time(all.take(i as int)),
                instruction_views(out@) == train_instructions(
                    train,
                    all.take(i as int),
                    taken.take(i as int),
                ),
            decreases route_paths.len() - i,
        {
            proof {
                lemma_legs_time_prefix(all, i + 1);
                assert(all.take(i + 1).drop_last() =~= all.take(i as int));
                assert(taken.take(i + 1).drop_last() =~= taken.take(i as int));
                assert(all.take(i + 1).last() == route_paths[i as int]@);
                assert(taken.take(i + 1).last() == self.taken_actions[i as int]@);
            }
            let mut subs = self.sub_instructions(&route_paths[i], &self.taken_actions[i], begin_at);
            let ghost before = instruction_views(out@);
            let ghost added = instruction_views(subs@);
            out.append(&mut subs);
            assert(instruction_views(out@) =~= before + added);
            begin_at = begin_at + route_paths[i].total_duration_mins();
            i = i + 1;
        }
        assert(all.take(i as int) =~= all);
        assert(taken.take(i as int) =~= taken);
        out
    }
}

/// The routes of a leg's instructions take as long as the leg.
pub proof fn lemma_sub_instructions_time(
    train: TrainView,
    routes: Seq<RouteView>,
    action: ActionView,
    begin_at: nat,
)
    ensures
        instructions_time(sub_instructions(train, routes, action, begin_at)) == path_time(routes),
{
    lemma_instructions_time_by_routes(sub_instructions(train, routes, action, begin_at), routes);
}

/// The time of a list of instructions is the time of the routes they
/// travel.
pub proof fn lemma_instructions_time_by_routes(
    instructions: Seq<InstructionView>,
    routes: Seq<RouteView>,
)
    requires
        instructions.len() == routes.len(),
        forall|k: int| 0 <= k < routes.len() ==> (#[trigger] instructions[k]).route == routes[k],
    ensures
        instructions_time(instructions) == path_time(routes),
    decreases routes.len(),
{
    if routes.len() > 0 {
        lemma_instructions_time_by_routes(instructions.drop_last(), routes.drop_last());
    }
}

/// The time of two lists of instructions, one after the other, is the sum
/// of their times.
pub proof fn lemma_instructions_time_add(a: Seq<InstructionView>, b: Seq<InstructionView>)
    ensures
        instructions_time(a + b) == instructions_time(a) + instructions_time(b),
    decreases b.len(),
{
    if b.len() == 0 {
        assert(a + b =~= a);
    } else {
        lemma_instructions_time_add(a, b.drop_last());
        assert((a + b).drop_last() =~= a + b.drop_last());
    }
}

/// The routes of a train's instructions take, together, the time that the
/// train travels.
pub proof fn lemma_train_instructions_time(
    train: TrainView,
    legs: Seq<RoutePathView>,
    taken: Seq<ActionView>,
)
    requires
        legs.len() == taken.len(),
    ensures
        instructions_time(train_instructions(train, legs, taken)) == legs_time(legs),
    decreases taken.len(),
{
    if taken.len() > 0 {
        lemma_train_instructions_time(train, legs.drop_last(), taken.drop_last());
        lemma_sub_instructions_time(
            train,
            legs.last().routes,
            taken.last(),
            legs_time(legs.drop_last()),
        );
        lemma_instructions_time_add(
            train_instructions(train, legs.drop_last(), taken.drop_last()),
            sub_instructions(train, legs.last().routes, taken.last(), legs_time(legs.drop_last())),
        );
    }
}

/// The state of the whole fleet, with the actions that have to be taken in
/// the end and the table of route paths that the trains travel by.
#[derive(Debug)]
pub struct Network {
    pub train_states: Vec<Train>,
    pub required_actions: Vec<Action>,
    pub route_map: Rc<RouteMap>,
}

/// What a state of the fleet is in contracts.
pub struct StateView {
    pub fleet: Seq<TrainStateView>,
    pub required: Seq<ActionView>,
    pub paths: Seq<RoutePathView>,
    pub limit: nat,
}

/// The views of a list of train states.
pub open spec fn fleet_views(fleet: Seq<Train>) -> Seq<TrainStateView> {
    fleet.map_values(|t: Train| t@)
}

impl View for Network {
    type V = StateView;

    open spec fn view(&self) -> StateView {
        StateView {
            fleet: fleet_views(self.train_states@),
            required: action_views(self.required_actions@),
            paths: self.route_map@,
            limit: self.route_map.limit as nat,
        }
    }
}

/// The actions that the trains of the fleet have taken: those of the
/// first train, then those of the second, and so on.
pub open spec fn fleet_taken(fleet: Seq<TrainStateView>) -> Seq<ActionView>
    decreases fleet.len(),
{
    if fleet.len() == 0 {
        Seq::empty()
    } else {
        fleet_taken(fleet.drop_last()) + fleet.last().taken
    }
}

/// The actions of `required` that are not among `taken`, in their order.
pub open spec fn untaken(required: Seq<ActionView>, taken: Seq<ActionView>) -> Seq<ActionView> {
    required.filter(|a: ActionView| !taken.contains(a))
}

/// The longest time that a train of the fleet travels; 0 for no train.
pub open spec fn fleet_duration(paths: Seq<RoutePathView>, fleet: Seq<TrainStateView>) -> nat
    decreases fleet.len(),
{
    if fleet.len() == 0 {
        0
    } else {
        let rest = fleet_duration(paths, fleet.drop_last());
        let last = fleet.last().duration(paths);
        if rest >= last {
            rest
        } else {
            last
        }
    }
}

/// What the trains of the fleet may take of `actions`: for the first
/// train, then for the second, and so on.
pub open spec fn fleet_takeable(
    paths: Seq<RoutePathView>,
    fleet: Seq<TrainStateView>,
    actions: Seq<ActionView>,
) -> Seq<ActionView>
    decreases fleet.len(),
{
    if fleet.len() == 0 {
        Seq::empty()
    } else {
        fleet_takeable(paths, fleet.drop_last(), actions) + takeable(fleet.last(), paths, actions)
    }
}

/// The instructions of the trains of the fleet, train after train.
pub open spec fn fleet_instructions(paths: Seq<RoutePathView>, fleet: Seq<TrainStateView>) -> Seq<
    InstructionView,
>
    decreases fleet.len(),
{
    if fleet.len() == 0 {
        Seq::empty()
    } else {
        fleet_instructions(paths, fleet.drop_last()) + fleet.last().instructions(paths)
    }
}

impl StateView {
    /// The actions taken so far, by any train.
    pub open spec fn taken(self) -> Seq<ActionView> {
        fleet_taken(self.fleet)
    }

    /// The required actions that no train has taken yet.
    pub open spec fn untaken(self) -> Seq<ActionView> {
        untaken(self.required, self.taken())
    }

    /// Whether every required action has been taken.
    pub open spec fn is_goal(self) -> bool {
        self.untaken().len() == 0
    }

    /// The makespan: the time of the train that travels longest.
    pub open spec fn makespan(self) -> nat {
        fleet_duration(self.paths, self.fleet)
    }

    /// The untaken actions that some train may take, each once, in the
    /// order in which the trains come upon them.
    pub open spec fn available(self) -> Seq<ActionView> {
        fleet_takeable(self.paths, self.fleet, self.untaken()).remove_duplicates(Seq::empty())
    }

    /// The instructions for the whole fleet.
    pub open spec fn instructions(self) -> Seq<InstructionView> {
        fleet_instructions(self.paths, self.fleet)
    }

    /// Whether the cargo of each train weighs no more than a `u32` holds.
    pub open spec fn weights_fit(self) -> bool {
        forall|i: int| 0 <= i < self.fleet.len() ==> (#[trigger] self.fleet[i]).weight() <= u32::MAX
    }

    /// Whether the table has a path for every leg of every train.
    pub open spec fn routes_resolve(self) -> bool {
        forall|i: int| 0 <= i < self.fleet.len() ==> (#[trigger] self.fleet[i]).resolves(self.paths)
    }

    /// Whether the time of each train is no more than a `u32` holds.
    pub open spec fn durations_fit(self) -> bool {
        forall|i: int|
            0 <= i < self.fleet.len() ==> (#[trigger] self.fleet[i]).duration(self.paths)
                <= u32::MAX
    }
}

/// The table of route paths, shared.
///
/// This is `Rc::clone` of the standard library: the result points to the
/// value that `map` points to.
#[verifier::external_body]
fn share(map: &Rc<RouteMap>) -> (r: Rc<RouteMap>)
    ensures
        *r == **map,
{
    Rc::clone(map)
}

/// A copy of the fleet.
pub fn copy_fleet(fleet: &Vec<Train>) -> (r: Vec<Train>)
    ensures
        fleet_views(r@) == fleet_views(fleet@),
{
    let mut out: Vec<Train> = Vec::new();
    let mut i: usize = 0;
    while i < fleet.len()
        invariant
            i <= fleet.len(),
            out.len() == i,
            forall|j: int| 0 <= j < i ==> out[j]@ == fleet[j]@,
        decreases fleet.len() - i,
    {
        out.push(fleet[i].clone());
        i = i + 1;
    }
    assert(fleet_views(out@) =~= fleet_views(fleet@));
    out
}

impl Clone for Network {
    fn clone(&self) -> (r: Self)
        ensures
            r@ == self@,
    {
        Network {
            train_states: copy_fleet(&self.train_states),
            required_actions: copy_actions(&self.required_actions),
            route_map: share(&self.route_map),
        }
    }
}

/// Whether `actions` holds an action equal to `action`.
pub fn contains_action(actions: &Vec<Action>, action: &Action) -> (r: bool)
    ensures
        r == action_views(actions@).contains(action@),
{
    let ghost all = action_views(actions@);
    let mut i: usize = 0;
    while i < actions.len()
        invariant
            i <= actions.len(),
            all == action_views(actions@),
            forall|j: int| 0 <= j < i ==> all[j] != action@,
        decreases actions.len() - i,
    {
        if actions[i].same(action) {
            assert(all[i as int] == action@);
            return true;
        }
        i = i + 1;
    }
    false
}

impl Network {
    /// The actions taken so far: those of the first train, then those of
    /// the second, and so on.
    pub fn taken_actions(&self) -> (r: Vec<Action>)
        ensures
            action_views(r@) == self@.taken(),
    {
        let ghost fleet = self@.fleet;
        let mut out: Vec<Action> = Vec::new();
        let mut i: usize = 0;
        assert(action_views(out@) =~= fleet_taken(fleet.take(0)));
        while i < self.train_states.len()
            invariant
                i <= self.train_states.len(),
                fleet == self@.fleet,
                fleet.len() == self.train_states.len(),
                action_views(out@) == fleet_taken(fleet.take(i as int)),
            decreases self.train_states.len() - i,
        {
            let mut more = copy_actions(&self.train_states[i].taken_actions);
            let ghost before = action_views(out@);
            out.append(&mut more);
            proof {
                assert(action_views(out@) =~= before + fleet[i as int].taken);
                assert(fleet.take(i + 1).drop_last() =~= fleet.take(i as int));
                assert(fleet.take(i + 1).last() == fleet[i as int]);
            }
            i = i + 1;
        }
        assert(fleet.take(i as int) =~= fleet);
        out
    }

    /// The required actions that no train has taken yet, in the order in
    /// which they are required.
    pub fn untaken_actions(&self) -> (r: Vec<Action>)
        ensures
            action_views(r@) == self@.untaken(),
    {
        let taken_actions = self.taken_actions();
        let ghost taken = self@.taken();
        let ghost required = self@.required;
        let mut out: Vec<Action> = Vec::new();
        let mut i: usize = 0;
        proof {
            reveal(Seq::filter);
            assert(action_views(out@) =~= untaken(required.take(0), taken));
        }
        while i < self.required_actions.len()
            invariant
                i <= self.required_actions.len(),
                taken == action_views(taken_actions@),
                required == self@.required,
                required.len() == self.required_actions.len(),
                action_views(out@) == untaken(required.take(i as int), taken),
            decreases self.required_actions.len() - i,
        {
            proof {
                required.take(i as int).lemma_filter_push(
                    required[i as int],
                    |a: ActionView| !taken.contains(a),
                );
                assert(required.take(i + 1) =~= required.take(i as int).push(required[i as int]));
            }
            if !contains_action(&taken_actions, &self.required_actions[i]) {
                let ghost before = action_views(out@);
                out.push(self.required_actions[i].clone());
                assert(action_views(out@) =~= before.push(required[i as int]));
            }
            i = i + 1;
        }
        assert(required.take(i as int) =~= required);
        out
    }

    /// Whether the work is done: every required action has been taken.
    pub fn is_success(&self) -> (r: bool)
        ensures
            r == self@.is_goal(),
    {
        self.untaken_actions().len() == 0
    }

    /// The makespan of the state: the time of the train that travels
    /// longest.
    pub fn optimal_duration_mins(&self) -> (r: u32)
        requires
            self@.routes_resolve(),
            self@.durations_fit(),
        ensures
            r == self@.makespan(),
    {
        let ghost fleet = self@.fleet;
        let ghost paths = self@.paths;
        let mut longest: u32 = 0;
        let mut i: usize = 0;
        while i < self.train_states.len()
            invariant
                i <= self.train_states.len(),
                fleet == self@.fleet,
                paths == self@.paths,
                fleet.len() == self.train_states.len(),
                self@.routes_resolve(),
                self@.durations_fit(),
                longest == fleet_duration(paths, fleet.take(i as int)),
            decreases self.train_states.len() - i,
        {
            proof {
                assert(fleet.take(i + 1).drop_last() =~= fleet.take(i as int));
                assert(fleet.take(i + 1).last() == fleet[i as int]);
                assert(fleet[i as int] == self.train_states[i as int]@);
            }
            let time = self.train_states[i].optimal_duration_mins(&self.route_map);
            if time > longest {
                longest = time;
            }
            i = i + 1;
        }
        assert(fleet.take(i as int) =~= fleet);
        longest
    }

    /// The instructions for the whole fleet: those of the first train,
    /// then those of the second, and so on.
    pub fn instructions(&self) -> (r: Vec<Instruction>)
        requires
            self@.routes_resolve(),
            self@.durations_fit(),
        ensures
            instruction_views(r@) == self@.instructions(),
    {
        let ghost fleet = self@.fleet;
        let ghost paths = self@.paths;
        let mut out: Vec<Instruction> = Vec::new();
        let mut i: usize = 0;
        assert(instruction_views(out@) =~= fleet_instructions(paths, fleet.take(0)));
        while i < self.train_states.len()
            invariant
                i <= self.train_states.len(),
                fleet == self@.fleet,
                paths == self@.paths,
                fleet.len() == self.train_states.len(),
                self@.routes_resolve(),
                self@.durations_fit(),
                instruction_views(out@) == fleet_instructions(paths, fleet.take(i as int)),
            decreases self.train_states.len() - i,
        {
            proof {
                assert(fleet.take(i + 1).drop_last() =~= fleet.take(i as int));
                assert(fleet.take(i + 1).last() == fleet[i as int]);
                assert(fleet[i as int] == self.train_states[i as int]@);
            }
            let mut more = self.train_states[i].instructions(&self.route_map);
            let ghost before = instruction_views(out@);
            let ghost added = instruction_views(more@);
            out.append(&mut more);
            assert(instruction_views(out@) =~= before + added);
            i = i + 1;
        }
        assert(fleet.take(i as int) =~= fleet);
        out
    }
}

impl Network {
    /// The untaken actions that some train may take, each once.
    pub fn available_actions(&self) -> (r: Vec<Action>)
        requires
            self@.weights_fit(),
        ensures
            action_views(r@) == self@.available(),
    {
        let untaken_actions = self.untaken_actions();
        let ghost fleet = self@.fleet;
        let ghost paths = self@.paths;
        let ghost open = self@.untaken();
        let mut out: Vec<Action> = Vec::new();
        let mut i: usize = 0;
        proof {
            assert(action_views(out@) =~= Seq::<ActionView>::empty());
        }
        while i < self.train_states.len()
            invariant
                i <= self.train_states.len(),
                fleet == self@.fleet,
                paths == self@.paths,
                open == action_views(untaken_actions@),
                fleet.len() == self.train_states.len(),
                self@.weights_fit(),
                action_views(out@) == fleet_takeable(
                    paths,
                    fleet.take(i as int),
                    open,
                ).remove_duplicates(Seq::empty()),
            decreases self.train_states.len() - i,
        {
            assert(fleet[i as int] == self.train_states[i as int]@);
            let more = self.train_states[i].available_actions(
                untaken_actions.as_slice(),
                &self.route_map,
            );
            let ghost done = fleet_takeable(paths, fleet.take(i as int), open);
            let ghost adding = more@.map_values(|a: &Action| a@);
            let mut j: usize = 0;
            assert(done + adding.take(0) =~= done);
            while j < more.len()
                invariant
                    j <= more.len(),
                    adding == more@.map_values(|a: &Action| a@),
                    action_views(out@) == (done + adding.take(j as int)).remove_duplicates(
                        Seq::empty(),
                    ),
                decreases more.len() - j,
            {
                let ghost seen = done + adding.take(j as int);
                proof {
                    seen.lemma_remove_duplicates_append(adding[j as int], Seq::empty());
                    seen.lemma_remove_duplicates_properties(Seq::empty());
                    assert(seen + Seq::<ActionView>::empty() =~= seen);
                    assert(seen + seq![adding[j as int]] =~= done + adding.take(j + 1));
                }
                if !contains_action(&out, more[j]) {
                    let ghost before = action_views(out@);
                    out.push(more[j].clone());
                    assert(action_views(out@) =~= before + seq![adding[j as int]]);
                }
                j = j + 1;
            }
            proof {
                assert(adding.take(j as int) =~= adding);
                assert(fleet.take(i + 1).drop_last() =~= fleet.take(i as int));
                assert(fleet.take(i + 1).last() == fleet[i as int]);
            }
            i = i + 1;
        }
        assert(fleet.take(i as int) =~= fleet);
        out
    }
}

/// Whether every drop follows a pick of the same package by the same
/// train, with no other drop of that package in between.
pub open spec fn drops_follow_picks(taken: Seq<ActionView>) -> bool {
    forall|j: int|
        0 <= j < taken.len() && (#[trigger] taken[j]) is Drop ==> carries(
            taken.take(j),
            taken[j].package(),
        )
}

impl TrainStateView {
    /// What the rules of taking actions keep true of a train: its cargo
    /// is within its capacity, and it has dropped only what it held.
    pub open spec fn sound(self) -> bool {
        &&& self.weight() <= self.train.capacity
        &&& drops_follow_picks(self.taken)
    }

    /// What holds of a train in every state that the search comes to: it
    /// is sound, its capacity fits a `u32`, and the table has a path for
    /// each of its legs.
    pub open spec fn inv(self, paths: Seq<RoutePathView>) -> bool {
        &&& self.sound()
        &&& self.train.capacity <= u32::MAX
        &&& self.resolves(paths)
    }
}

impl StateView {
    /// What the rules of taking actions keep true of the fleet: every
    /// train is sound, no action is taken twice, and only required
    /// actions are taken.
    pub open spec fn sound(self) -> bool {
        &&& forall|i: int| 0 <= i < self.fleet.len() ==> (#[trigger] self.fleet[i]).sound()
        &&& self.taken().no_duplicates()
        &&& forall|a: ActionView| #[trigger] self.taken().contains(a) ==> self.required.contains(a)
    }

    /// What holds of every state that the search comes to: it is sound,
    /// the table has a path for every leg of every train, and the times
    /// that are added up fit a `u32`.
    pub open spec fn inv(self) -> bool {
        &&& self.sound()
        &&& within(self.paths, self.limit)
        &&& self.required.len() * self.limit <= u32::MAX
        &&& self.taken().len() + self.untaken().len() <= self.required.len()
        &&& forall|i: int| 0 <= i < self.fleet.len() ==> (#[trigger] self.fleet[i]).inv(self.paths)
    }

    /// The state in which train `i` has taken `a` as well.
    pub open spec fn after(self, i: int, a: ActionView) -> StateView {
        StateView {
            fleet: self.fleet.update(i, self.fleet[i].take(a)),
            required: self.required,
            paths: self.paths,
            limit: self.limit,
        }
    }

    /// The actions that train `i` can take next: untaken, allowed for the
    /// train, and at a station that the table has a path to from where
    /// the train stands.
    pub open spec fn moves(self, i: int) -> Seq<ActionView> {
        takeable(self.fleet[i], self.paths, self.untaken()).filter(
            |a: ActionView| self.fleet[i].can_reach(self.paths, a),
        )
    }

    /// The state that follows when train `i` takes `a`, with what that
    /// adds to the makespan.
    pub open spec fn outcome(self, i: int, a: ActionView) -> (StateView, nat) {
        (self.after(i, a), (self.after(i, a).makespan() - self.makespan()) as nat)
    }

    /// The states that follow when train `i` moves, each with what it adds
    /// to the makespan.
    pub open spec fn train_successors(self, i: int) -> Seq<(StateView, nat)> {
        self.moves(i).map_values(|a: ActionView| self.outcome(i, a))
    }

    /// The states that follow when one of the first `n` trains moves.
    pub open spec fn successors_upto(self, n: int) -> Seq<(StateView, nat)>
        decreases n,
    {
        if n <= 0 {
            Seq::empty()
        } else {
            self.successors_upto(n - 1) + self.train_successors(n - 1)
        }
    }

    /// The states that follow this one, each with what it adds to the
    /// makespan: for the moves of the first train, then for those of the
    /// second, and so on.
    pub open spec fn successors(self) -> Seq<(StateView, nat)> {
        self.successors_upto(self.fleet.len() as int)
    }
}

/// A train has taken no more actions than the fleet as a whole.
pub proof fn lemma_fleet_taken_len(fleet: Seq<TrainStateView>, i: int)
    requires
        0 <= i < fleet.len(),
    ensures
        fleet[i].taken.len() <= fleet_taken(fleet).len(),
    decreases fleet.len(),
{
    if i < fleet.len() - 1 {
        lemma_fleet_taken_len(fleet.drop_last(), i);
    }
}

/// What the fleet has taken after one train has taken `a` as well: what it
/// had taken, with `a` put in after that train's actions.
pub proof fn lemma_fleet_taken_after(fleet: Seq<TrainStateView>, i: int, a: ActionView) -> (at: int)
    requires
        0 <= i < fleet.len(),
    ensures
        0 <= at <= fleet_taken(fleet).len(),
        fleet_taken(fleet.update(i, fleet[i].take(a))) == fleet_taken(fleet).insert(at, a),
    decreases fleet.len(),
{
    let next = fleet.update(i, fleet[i].take(a));
    let rest = fleet.drop_last();
    if i == fleet.len() - 1 {
        assert(next.drop_last() =~= rest);
        let at = fleet_taken(fleet).len() as int;
        assert(fleet_taken(next) =~= fleet_taken(fleet).insert(at, a));
        at
    } else {
        let at = lemma_fleet_taken_after(rest, i, a);
        assert(next.drop_last() =~= rest.update(i, rest[i].take(a)));
        assert(next.last() == fleet.last());
        assert(fleet_taken(rest).insert(at, a) + fleet.last().taken =~= (fleet_taken(rest)
            + fleet.last().taken).insert(at, a));
        at
    }
}

/// Putting a new item into a list without duplicates leaves it without
/// duplicates, and adds nothing else to it.
pub proof fn lemma_insert_fresh<A>(s: Seq<A>, at: int, a: A)
    requires
        0 <= at <= s.len(),
    ensures
        forall|x: A| #[trigger] s.insert(at, a).contains(x) <==> (x == a || s.contains(x)),
        s.no_duplicates() && !s.contains(a) ==> s.insert(at, a).no_duplicates(),
        s.insert(at, a).len() == s.len() + 1,
{
    let t = s.insert(at, a);
    s.insert_ensures(at, a);
    assert forall|x: A| #[trigger] t.contains(x) <==> (x == a || s.contains(x)) by {
        if t.contains(x) {
            let k = choose|k: int| 0 <= k < t.len() && t[k] == x;
            if k < at {
                assert(s[k] == x);
            } else if k > at {
                assert(s[k - 1] == x);
            }
        }
        if x == a {
            assert(t[at] == a);
        }
        if s.contains(x) {
            let k = choose|k: int| 0 <= k < s.len() && s[k] == x;
            if k < at {
                assert(t[k] == x);
            } else {
                assert(t[k + 1] == x);
            }
        }
    }
    if s.no_duplicates() && !s.contains(a) {
        assert forall|i: int, j: int| 0 <= i < t.len() && 0 <= j < t.len() && i != j implies t[i]
            != t[j] by {
            let si = if i < at {
                i
            } else {
                i - 1
            };
            let sj = if j < at {
                j
            } else {
                j - 1
            };
            if i != at && j != at {
                assert(t[i] == s[si]);
                assert(t[j] == s[sj]);
            } else if i == at {
                assert(t[j] == s[sj]);
            } else {
                assert(t[i] == s[si]);
            }
        }
    }
}

/// A stricter test lets no more items through, and fewer when it turns
/// away an item that the other lets through.
pub proof fn lemma_filter_stricter<A>(s: Seq<A>, p: spec_fn(A) -> bool, q: spec_fn(A) -> bool)
    requires
        forall|x: A| #[trigger] q(x) ==> p(x),
    ensures
        s.filter(q).len() <= s.filter(p).len(),
        (exists|k: int| 0 <= k < s.len() && p(s[k]) && !q(s[k])) ==> s.filter(q).len() < s.filter(
            p,
        ).len(),
    decreases s.len(),
{
    reveal(Seq::filter);
    if s.len() > 0 {
        lemma_filter_stricter(s.drop_last(), p, q);
        if exists|k: int| 0 <= k < s.len() && p(s[k]) && !q(s[k]) {
            let k = choose|k: int| 0 <= k < s.len() && p(s[k]) && !q(s[k]);
            if k < s.len() - 1 {
                assert(s.drop_last()[k] == s[k]);
            }
        }
    }
}

/// What is let through by a test is an item of the list that meets it.
pub proof fn lemma_filter_member<A>(s: Seq<A>, p: spec_fn(A) -> bool, x: A)
    ensures
        s.filter(p).contains(x) <==> (s.contains(x) && p(x)),
{
    if s.filter(p).contains(x) {
        let k = choose|k: int| 0 <= k < s.filter(p).len() && s.filter(p)[k] == x;
        s.lemma_filter_pred(p, k);
        s.lemma_filter_contains_rev(p, x);
    }
    if s.contains(x) && p(x) {
        let k = choose|k: int| 0 <= k < s.len() && s[k] == x;
        s.lemma_filter_contains(p, k);
    }
}

/// A move of a train is an untaken action that the train may take and
/// whose station it can reach.
pub proof fn lemma_move_is_allowed(s: StateView, i: int, a: ActionView)
    requires
        0 <= i < s.fleet.len(),
    ensures
        s.moves(i).contains(a) <==> {
            &&& s.required.contains(a)
            &&& !s.taken().contains(a)
            &&& s.fleet[i].can_take(s.paths, a)
            &&& s.fleet[i].can_reach(s.paths, a)
        },
{
    let t = s.fleet[i];
    lemma_filter_member(s.required, |x: ActionView| !s.taken().contains(x), a);
    lemma_filter_member(s.untaken(), |x: ActionView| t.can_take(s.paths, x), a);
    lemma_filter_member(
        takeable(t, s.paths, s.untaken()),
        |x: ActionView| t.can_reach(s.paths, x),
        a,
    );
}

/// A sound train that takes an action that it may take is sound
/// afterwards: within its capacity, and having dropped only what it held.
pub proof fn lemma_train_sound_after(t: TrainStateView, paths: Seq<RoutePathView>, a: ActionView)
    requires
        t.sound(),
        t.can_take(paths, a),
    ensures
        t.take(a).sound(),
{
    let next = t.take(a);
    assert(next.taken.drop_last() =~= t.taken);
    assert(next.taken.last() == a);
    match a {
        ActionView::Pick(p, _) => {
            assert(carried(t.taken).push(p).drop_last() =~= carried(t.taken));
        },
        ActionView::Drop(p, _) => {
            lemma_without_is_lighter(carried(t.taken), p);
        },
    }
    assert(next.weight() <= next.train.capacity);
    assert forall|j: int| 0 <= j < next.taken.len() && (#[trigger] next.taken[j]) is Drop implies carries(
        next.taken.take(j),
        next.taken[j].package(),
    ) by {
        if j < t.taken.len() {
            assert(next.taken[j] == t.taken[j]);
            assert(next.taken.take(j) =~= t.taken.take(j));
        } else {
            assert(next.taken.take(j) =~= t.taken);
        }
    }
}

/// A train that takes an action that it may take, at a station that it
/// can reach, still travels by paths of the table.
pub proof fn lemma_train_inv_after(t: TrainStateView, paths: Seq<RoutePathView>, a: ActionView)
    requires
        t.inv(paths),
        t.can_take(paths, a),
        t.can_reach(paths, a),
    ensures
        t.take(a).inv(paths),
{
    lemma_train_sound_after(t, paths, a);
    assert(t.take(a).taken.drop_last() =~= t.taken);
}

/// When a train of a sound fleet takes a required action that no train
/// has taken and that it may take, the fleet is sound afterwards.
pub proof fn lemma_sound_after(s: StateView, i: int, a: ActionView)
    requires
        s.sound(),
        0 <= i < s.fleet.len(),
        s.required.contains(a),
        !s.taken().contains(a),
        s.fleet[i].can_take(s.paths, a),
    ensures
        s.after(i, a).sound(),
        forall|x: ActionView| #[trigger]
            s.after(i, a).taken().contains(x) <==> (x == a || s.taken().contains(x)),
        s.after(i, a).taken().len() == s.taken().len() + 1,
{
    let next = s.after(i, a);
    let at = lemma_fleet_taken_after(s.fleet, i, a);
    lemma_insert_fresh(s.taken(), at, a);
    assert(s.fleet[i].sound());
    lemma_train_sound_after(s.fleet[i], s.paths, a);
    assert forall|k: int| 0 <= k < next.fleet.len() implies (#[trigger] next.fleet[k]).sound() by {
        if k != i {
            assert(next.fleet[k] == s.fleet[k]);
            assert(s.fleet[k].sound());
        }
    }
}

/// One more action never shortens a train's time.
pub proof fn lemma_duration_grows(t: TrainStateView, paths: Seq<RoutePathView>, a: ActionView)
    ensures
        t.duration(paths) <= t.take(a).duration(paths),
{
    let next = t.take(a);
    assert(next.taken.drop_last() =~= t.taken);
    assert(next.legs(paths).drop_last() =~= t.legs(paths));
}

/// When one train of a fleet travels longer and the others as before, the
/// makespan does not go down.
pub proof fn lemma_fleet_duration_grows(
    paths: Seq<RoutePathView>,
    fleet: Seq<TrainStateView>,
    i: int,
    t: TrainStateView,
)
    requires
        0 <= i < fleet.len(),
        fleet[i].duration(paths) <= t.duration(paths),
    ensures
        fleet_duration(paths, fleet) <= fleet_duration(paths, fleet.update(i, t)),
    decreases fleet.len(),
{
    let next = fleet.update(i, t);
    if i == fleet.len() - 1 {
        assert(next.drop_last() =~= fleet.drop_last());
    } else {
        lemma_fleet_duration_grows(paths, fleet.drop_last(), i, t);
        assert(next.drop_last() =~= fleet.drop_last().update(i, t));
    }
}

/// The makespan is the time of no train in particular, but no train
/// travels longer.
pub proof fn lemma_fleet_duration_is_max(paths: Seq<RoutePathView>, fleet: Seq<TrainStateView>)
    ensures
        forall|i: int|
            0 <= i < fleet.len() ==> (#[trigger] fleet[i]).duration(paths) <= fleet_duration(
                paths,
                fleet,
            ),
        fleet.len() > 0 ==> exists|i: int|
            0 <= i < fleet.len() && (#[trigger] fleet[i]).duration(paths) == fleet_duration(
                paths,
                fleet,
            ),
        fleet.len() == 0 ==> fleet_duration(paths, fleet) == 0,
    decreases fleet.len(),
{
    if fleet.len() > 0 {
        let rest = fleet.drop_last();
        lemma_fleet_duration_is_max(paths, rest);
        assert forall|i: int| 0 <= i < fleet.len() implies (#[trigger] fleet[i]).duration(paths)
            <= fleet_duration(paths, fleet) by {
            if i < rest.len() {
                assert(rest[i] == fleet[i]);
            }
        }
        if fleet_duration(paths, fleet) == fleet.last().duration(paths) {
            assert(fleet[fleet.len() - 1].duration(paths) == fleet_duration(paths, fleet));
        } else {
            let i = choose|i: int|
                0 <= i < rest.len() && (#[trigger] rest[i]).duration(paths) == fleet_duration(
                    paths,
                    rest,
                );
            assert(fleet[i] == rest[i]);
        }
    }
}

/// In a state that the search comes to, the time of every train fits a
/// `u32`, and so does the weight of its cargo.
pub proof fn lemma_inv_fits(s: StateView)
    requires
        s.inv(),
    ensures
        s.routes_resolve(),
        s.durations_fit(),
        s.weights_fit(),
        s.makespan() <= u32::MAX,
{
    assert forall|i: int| 0 <= i < s.fleet.len() implies (#[trigger] s.fleet[i]).duration(s.paths)
        <= u32::MAX by {
        let t = s.fleet[i];
        assert(t.inv(s.paths));
        lemma_duration_bound(s.paths, s.limit, t.train.initial_station, t.taken);
        lemma_fleet_taken_len(s.fleet, i);
        assert(t.taken.len() * s.limit <= s.required.len() * s.limit) by (nonlinear_arith)
            requires
                t.taken.len() <= s.required.len(),
        ;
    }
    assert forall|i: int| 0 <= i < s.fleet.len() implies (#[trigger] s.fleet[i]).weight()
        <= u32::MAX by {
        assert(s.fleet[i].inv(s.paths));
    }
    assert forall|i: int| 0 <= i < s.fleet.len() implies (#[trigger] s.fleet[i]).resolves(
        s.paths,
    ) by {
        assert(s.fleet[i].inv(s.paths));
    }
    lemma_fleet_duration_is_max(s.paths, s.fleet);
}

/// A move leads from a state that the search comes to to another such
/// state, whose makespan is no smaller.
pub proof fn lemma_inv_after(s: StateView, i: int, a: ActionView)
    requires
        s.inv(),
        0 <= i < s.fleet.len(),
        s.moves(i).contains(a),
    ensures
        s.after(i, a).inv(),
        s.makespan() <= s.after(i, a).makespan(),
{
    let next = s.after(i, a);
    lemma_move_is_allowed(s, i, a);
    lemma_sound_after(s, i, a);
    assert(s.fleet[i].inv(s.paths));
    lemma_train_inv_after(s.fleet[i], s.paths, a);
    assert forall|k: int| 0 <= k < next.fleet.len() implies (#[trigger] next.fleet[k]).inv(
        next.paths,
    ) by {
        if k != i {
            assert(next.fleet[k] == s.fleet[k]);
            assert(s.fleet[k].inv(s.paths));
        }
    }
    let p = |x: ActionView| !s.taken().contains(x);
    let q = |x: ActionView| !next.taken().contains(x);
    assert forall|x: ActionView| #[trigger] q(x) implies p(x) by {}
    lemma_filter_stricter(s.required, p, q);
    let k = choose|k: int| 0 <= k < s.required.len() && s.required[k] == a;
    assert(p(s.required[k]) && !q(s.required[k]));
    lemma_duration_grows(s.fleet[i], s.paths, a);
    lemma_fleet_duration_grows(s.paths, s.fleet, i, s.fleet[i].take(a));
}

/// The views of a list of states, each with a cost.
pub open spec fn successor_views(successors: Seq<(Network, u32)>) -> Seq<(StateView, nat)> {
    successors.map_values(|p: (Network, u32)| (p.0@, p.1 as nat))
}

impl Train {
    /// Whether the table has a path from where the train stands to where
    /// the action takes place.
    pub fn can_reach(&self, action: &Action, route_map: &RouteMap) -> (r: bool)
        ensures
            r == self@.can_reach(route_map@, action@),
    {
        route_map.get(&self.position(), &action.station()).is_some()
    }

    /// Where the train stands: at the station of its last action, or
    /// where it started if it has taken none.
    pub fn position(&self) -> (r: Station)
        ensures
            r@ == self@.position(),
    {
        let n = self.taken_actions.len();
        if n == 0 {
            self.train.initial_station.clone()
        } else {
            assert(self@.taken.last() == self.taken_actions[n - 1]@);
            self.taken_actions[n - 1].station()
        }
    }
}

impl Network {
    /// The states that follow this one, each with what it adds to the
    /// makespan: one for every move of every train.
    pub fn take_available_actions(&self) -> (r: Vec<(Network, u32)>)
        requires
            self@.inv(),
        ensures
            successor_views(r@) == self@.successors(),
            forall|k: int|
                0 <= k < r.len() ==> (#[trigger] r[k]).0@.inv() && self@.makespan() + r[k].1
                    == r[k].0@.makespan(),
    {
        let ghost s = self@;
        proof {
            lemma_inv_fits(s);
        }
        let untaken_actions = self.untaken_actions();
        let current_total_durations = self.optimal_duration_mins();
        let mut out: Vec<(Network, u32)> = Vec::new();
        let mut index: usize = 0;
        assert(successor_views(out@) =~= s.successors_upto(0));
        while index < self.train_states.len()
            invariant
                index <= self.train_states.len(),
                s == self@,
                s.inv(),
                s.fleet.len() == self.train_states.len(),
                s.untaken() == action_views(untaken_actions@),
                current_total_durations == s.makespan(),
                successor_views(out@) == s.successors_upto(index as int),
                forall|k: int|
                    0 <= k < out.len() ==> (#[trigger] out[k]).0@.inv() && s.makespan() + out[k].1
                        == out[k].0@.makespan(),
            decreases self.train_states.len() - index,
        {
            let each_train_state = &self.train_states[index];
            let ghost t = s.fleet[index as int];
            assert(t == each_train_state@);
            assert(t.inv(s.paths));
            let actions = each_train_state.available_actions(
                untaken_actions.as_slice(),
                &self.route_map,
            );
            let ghost avail = actions@.map_values(|a: &Action| a@);
            let ghost base = s.successors_upto(index as int);
            let ghost reach = |a: ActionView| t.can_reach(s.paths, a);
            let ghost result = |a: ActionView| s.outcome(index as int, a);
            let mut j: usize = 0;
            proof {
                reveal(Seq::filter);
                assert(base + avail.take(0).filter(reach).map_values(result) =~= base);
            }
            while j < actions.len()
                invariant
                    j <= actions.len(),
                    index < self.train_states.len(),
                    s == self@,
                    s.inv(),
                    s.fleet.len() == self.train_states.len(),
                    t == s.fleet[index as int],
                    each_train_state@ == t,
                    *each_train_state == self.train_states[index as int],
                    current_total_durations == s.makespan(),
                    avail == actions@.map_values(|a: &Action| a@),
                    avail == takeable(t, s.paths, s.untaken()),
                    reach == |a: ActionView| t.can_reach(s.paths, a),
                    result == |a: ActionView| s.outcome(index as int, a),
                    successor_views(out@) == base + avail.take(j as int).filter(reach).map_values(
                        result,
                    ),
                    forall|k: int|
                        0 <= k < out.len() ==> (#[trigger] out[k]).0@.inv() && s.makespan()
                            + out[k].1 == out[k].0@.makespan(),
                decreases actions.len() - j,
            {
                let action = actions[j];
                let ghost a = avail[j as int];
                proof {
                    avail.take(j as int).lemma_filter_push(a, reach);
                    assert(avail.take(j + 1) =~= avail.take(j as int).push(a));
                }
                if each_train_state.can_reach(action, &self.route_map) {
                    let mut new_train_states = copy_fleet(&self.train_states);
                    let mut new_train_state = each_train_state.clone();
                    new_train_state.take_action(action);
                    new_train_states.set(index, new_train_state);
                    let new_state = Network {
                        train_states: new_train_states,
                        required_actions: copy_actions(&self.required_actions),
                        route_map: share(&self.route_map),
                    };
                    proof {
                        assert(new_state@.fleet =~= s.fleet.update(index as int, t.take(a)));
                        assert(new_state@ == s.after(index as int, a));
                        assert(avail.contains(a));
                        lemma_filter_member(avail, reach, a);
                        lemma_inv_after(s, index as int, a);
                        lemma_inv_fits(new_state@);
                    }
                    let cost = new_state.optimal_duration_mins() - current_total_durations;
                    let ghost before = successor_views(out@);
                    out.push((new_state, cost));
                    proof {
                        assert(successor_views(out@) =~= before.push(result(a)));
                        assert(before.push(result(a)) =~= base + avail.take(j as int).filter(
                            reach,
                        ).push(a).map_values(result));
                    }
                }
                j = j + 1;
            }
            proof {
                assert(avail.take(j as int) =~= avail);
                assert(avail.filter(reach) == s.moves(index as int));
            }
            index = index + 1;
        }
        out
    }
}

/// Whether the two fleets hold the same trains with the same actions.
pub fn same_fleet(a: &Vec<Train>, b: &Vec<Train>) -> (r: bool)
    ensures
        r == (fleet_views(a@) == fleet_views(b@)),
{
    if a.len() != b.len() {
        assert(fleet_views(a@).len() != fleet_views(b@).len());
        return false;
    }
    let mut i: usize = 0;
    while i < a.len()
        invariant
            i <= a.len(),
            a.len() == b.len(),
            forall|k: int| 0 <= k < i ==> a[k]@ == b[k]@,
        decreases a.len() - i,
    {
        if !a[i].same(&b[i]) {
            assert(fleet_views(a@)[i as int] != fleet_views(b@)[i as int]);
            return false;
        }
        i = i + 1;
    }
    assert(fleet_views(a@) =~= fleet_views(b@));
    true
}

/// Whether the two lists hold the same actions in the same order.
pub fn same_actions(a: &Vec<Action>, b: &Vec<Action>) -> (r: bool)
    ensures
        r == (action_views(a@) == action_views(b@)),
{
    if a.len() != b.len() {
        assert(action_views(a@).len() != action_views(b@).len());
        return false;
    }
    let mut i: usize = 0;
    while i < a.len()
        invariant
            i <= a.len(),
            a.len() == b.len(),
            forall|k: int| 0 <= k < i ==> a[k]@ == b[k]@,
        decreases a.len() - i,
    {
        if !a[i].same(&b[i]) {
            assert(action_views(a@)[i as int] != action_views(b@)[i as int]);
            return false;
        }
        i = i + 1;
    }
    assert(action_views(a@) =~= action_views(b@));
    true
}

impl Train {
    /// Whether the two states are of the same train with the same
    /// actions.
    pub fn same(&self, other: &Train) -> (r: bool)
        ensures
            r == (self@ == other@),
    {
        self.train.same(&other.train) && same_actions(&self.taken_actions, &other.taken_actions)
    }
}

/// Two states of the fleet are the same state when their trains have
/// taken the same actions: the required actions and the table of route
/// paths are the same throughout a search, and are not looked at.
impl PartialEq for Network {
    fn eq(&self, other: &Self) -> (r: bool) {
        same_fleet(&self.train_states, &other.train_states)
    }
}

impl vstd::std_specs::cmp::PartialEqSpecImpl for Network {
    open spec fn obeys_eq_spec() -> bool {
        true
    }

    open spec fn eq_spec(&self, other: &Self) -> bool {
        fleet_views(self.train_states@) == fleet_views(other.train_states@)
    }
}

impl Eq for Network {

}

impl std::hash::Hash for Network {
    /// Feeds the trains' states to the hasher, and nothing else, as `eq`
    /// looks at nothing else.
    #[verifier::external_body]
    fn hash<H: std::hash::Hasher>(&self, state: &mut H) {
        self.train_states.hash(state);
    }
}

/// Whether the state `b` follows the state `a`: one train has made one
/// move.
pub open spec fn follows(a: StateView, b: StateView) -> bool {
    exists|k: int| 0 <= k < a.successors().len() && (#[trigger] a.successors()[k]).0 == b
}

/// What the makespan grows by on the way through the given states.
pub open spec fn plan_cost(path: Seq<StateView>) -> nat
    decreases path.len(),
{
    if path.len() <= 1 {
        0
    } else {
        plan_cost(path.drop_last()) + (path.last().makespan() - path[path.len() - 2].makespan()) as nat
    }
}

/// Whether each state of `path` follows the one before it.
pub open spec fn is_way(path: Seq<StateView>) -> bool {
    forall|i: int| 0 < i < path.len() ==> follows(path[i - 1], #[trigger] path[i])
}

/// Whether `path` is a way from the state `start` to a state in which
/// the work is done: it begins with `start`, each of its states follows
/// the one before it, and every required action is taken in the last.
pub open spec fn is_plan(start: StateView, path: Seq<StateView>) -> bool {
    &&& path.len() > 0
    &&& path[0] == start
    &&& path.last().is_goal()
    &&& is_way(path)
}

/// Whether `time` is the smallest makespan of the plans from `start`.
pub open spec fn is_optimal_time(start: StateView, time: nat) -> bool {
    &&& exists|path: Seq<StateView>| #[trigger] is_plan(start, path) && path.last().makespan() == time
    &&& forall|path: Seq<StateView>| #[trigger] is_plan(start, path) ==> time <= path.last().makespan()
}

/// The views of a list of states.
pub open spec fn state_views(states: Seq<Network>) -> Seq<StateView> {
    states.map_values(|s: Network| s@)
}

/// The trains of a network before any of them has taken an action.
pub open spec fn fresh_fleet(trains: Seq<TrainView>) -> Seq<TrainStateView> {
    trains.map_values(|t: TrainView| TrainStateView { train: t, taken: Seq::empty() })
}

/// Whether `s` is a state that planning for the network starts from: no
/// train has taken an action, the actions that the packages ask for are
/// required, and the trains travel by a table of route paths of the
/// network, none of which takes longer than all routes together.
pub open spec fn is_initial_state(net: NetworkView, s: StateView) -> bool {
    &&& s.fleet == fresh_fleet(net.trains)
    &&& s.required == required_actions(net.packages)
    &&& s.limit == path_time(net.routes)
    &&& within(s.paths, s.limit)
    &&& is_table_of(net, s.paths)
}

/// A fleet of which no train has taken an action has taken none, and has
/// not travelled.
pub proof fn lemma_fresh_fleet(paths: Seq<RoutePathView>, trains: Seq<TrainView>)
    ensures
        fleet_taken(fresh_fleet(trains)) == Seq::<ActionView>::empty(),
        fleet_duration(paths, fresh_fleet(trains)) == 0,
    decreases trains.len(),
{
    if trains.len() > 0 {
        lemma_fresh_fleet(paths, trains.drop_last());
        assert(fresh_fleet(trains).drop_last() =~= fresh_fleet(trains.drop_last()));
        assert(fleet_taken(fresh_fleet(trains)) =~= Seq::<ActionView>::empty());
    }
}

/// A state that planning starts from is one that the search may come to,
/// as long as the network's times fit; its makespan is 0.
pub proof fn lemma_initial_inv(net: NetworkView, s: StateView)
    requires
        is_initial_state(net, s),
        path_time(net.routes) * (2 * net.packages.len() + 1) <= u32::MAX,
        forall|i: int| 0 <= i < net.trains.len() ==> (#[trigger] net.trains[i]).capacity <= u32::MAX,
    ensures
        s.inv(),
        s.makespan() == 0,
{
    lemma_fresh_fleet(s.paths, net.trains);
    s.required.lemma_filter_len(|a: ActionView| !s.taken().contains(a));
    assert(s.required.len() * s.limit <= u32::MAX) by (nonlinear_arith)
        requires
            s.limit * (2 * net.packages.len() + 1) <= u32::MAX,
            s.required.len() == 2 * net.packages.len(),
    ;
    assert forall|i: int| 0 <= i < s.fleet.len() implies (#[trigger] s.fleet[i]).inv(s.paths) by {
        assert(s.fleet[i].train == net.trains[i]);
        assert(s.fleet[i].taken.len() == 0);
    }
}

impl Network {
    /// The state that planning for the network starts from.
    pub fn new(network: &crate::model::Network) -> (r: Self)
        requires
            network.within_limits(),
        ensures
            is_initial_state(network@, r@),
            r@.inv(),
            r@.makespan() == 0,
    {
        proof {
            assert(path_time(network@.routes) <= u32::MAX) by (nonlinear_arith)
                requires
                    path_time(network@.routes) * (2 * network.packages.len() + 1) <= u32::MAX,
            ;
        }
        let route_map = Rc::new(network.all_shortest_route_paths_map());
        let mut train_states: Vec<Train> = Vec::new();
        let mut i: usize = 0;
        while i < network.trains.len()
            invariant
                i <= network.trains.len(),
                train_states.len() == i,
                forall|k: int|
                    0 <= k < i ==> (#[trigger] train_states[k])@ == (TrainStateView {
                        train: network.trains[k]@,
                        taken: Seq::empty(),
                    }),
            decreases network.trains.len() - i,
        {
            let state = Train { train: network.trains[i].clone(), taken_actions: Vec::new() };
            assert(state@.taken =~= Seq::<ActionView>::empty());
            train_states.push(state);
            i = i + 1;
        }
        let state = Network { train_states, required_actions: network.actions(), route_map };
        proof {
            assert(state@.fleet =~= fresh_fleet(network@.trains));
            assert forall|i: int| 0 <= i < network@.trains.len() implies (
            #[trigger] network@.trains[i]).capacity <= u32::MAX by {
                assert(network@.trains[i] == network.trains[i]@);
            }
            lemma_initial_inv(network@, state@);
        }
        state
    }
}

} // verus!
