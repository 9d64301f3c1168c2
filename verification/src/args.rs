//! The network as written down by an operator: every station is referred
//! to by its name, nothing is resolved yet.

use crate::error::{Error, ErrorView, Record};
use vstd::prelude::*;

pub mod case;

verus! {

/// What a route is in contracts: its name, its two end points and its
/// travel time.
pub struct RouteView {
    pub name: Seq<char>,
    pub from: Seq<char>,
    pub to: Seq<char>,
    pub travel_time: nat,
}

/// What a package is in contracts.
pub struct PackageView {
    pub name: Seq<char>,
    pub weight: nat,
    pub from: Seq<char>,
    pub to: Seq<char>,
}

/// What a train is in contracts.
pub struct TrainView {
    pub name: Seq<char>,
    pub capacity: nat,
    pub initial_station: Seq<char>,
}

/// What a whole network is in contracts.
pub struct NetworkView {
    pub stations: Seq<Seq<char>>,
    pub routes: Seq<RouteView>,
    pub packages: Seq<PackageView>,
    pub trains: Seq<TrainView>,
}

/// A network as it is given: stations, the routes between them, the
/// packages to deliver and the trains to deliver them with.
#[derive(Debug)]
pub struct Network {
    pub stations: Vec<Station>,
    pub routes: Vec<Route>,
    pub packages: Vec<Package>,
    pub trains: Vec<Train>,
}

/// A station, known by its name.
#[derive(Debug)]
pub struct Station {
    pub name: String,
}

/// A route between two stations, named by their names, with the time in
/// minutes that a train takes to travel it.
#[derive(Debug)]
pub struct Route {
    pub name: String,
    pub from_to: (String, String),
    pub travel_time: u32,
}

/// A package with its weight, the station where it waits and the
/// station where it has to go.
#[derive(Debug)]
pub struct Package {
    pub name: String,
    pub weight: u32,
    pub from_to: (String, String),
}

/// A train with the weight that it can hold and the station at which it
/// starts.
#[derive(Debug)]
pub struct Train {
    pub name: String,
    pub capacity: u32,
    pub initial_station_name: String,
}

impl View for Station {
    type V = Seq<char>;

    open spec fn view(&self) -> Seq<char> {
        self.name@
    }
}

impl View for Route {
    type V = RouteView;

    open spec fn view(&self) -> RouteView {
        RouteView {
            name: self.name@,
            from: self.from_to.0@,
            to: self.from_to.1@,
            travel_time: self.travel_time as nat,
        }
    }
}

impl View for Package {
    type V = PackageView;

    open spec fn view(&self) -> PackageView {
        PackageView {
            name: self.name@,
            weight: self.weight as nat,
            from: self.from_to.0@,
            to: self.from_to.1@,
        }
    }
}

impl View for Train {
    type V = TrainView;

    open spec fn view(&self) -> TrainView {
        TrainView {
            name: self.name@,
            capacity: self.capacity as nat,
            initial_station: self.initial_station_name@,
        }
    }
}

impl View for Network {
    type V = NetworkView;

    open spec fn view(&self) -> NetworkView {
        NetworkView {
            stations: self.stations@.map_values(|s: Station| s@),
            routes: self.routes@.map_values(|r: Route| r@),
            packages: self.packages@.map_values(|p: Package| p@),
            trains: self.trains@.map_values(|t: Train| t@),
        }
    }
}

impl Clone for Station {
    fn clone(&self) -> (r: Self)
        ensures
            r@ == self@,
    {
        Station { name: self.name.clone() }
    }
}

impl Clone for Route {
    fn clone(&self) -> (r: Self)
        ensures
            r@ == self@,
    {
        Route {
            name: self.name.clone(),
            from_to: (self.from_to.0.clone(), self.from_to.1.clone()),
            travel_time: self.travel_time,
        }
    }
}

impl Clone for Package {
    fn clone(&self) -> (r: Self)
        ensures
            r@ == self@,
    {
        Package {
            name: self.name.clone(),
            weight: self.weight,
            from_to: (self.from_to.0.clone(), self.from_to.1.clone()),
        }
    }
}

impl Clone for Train {
    fn clone(&self) -> (r: Self)
        ensures
            r@ == self@,
    {
        Train {
            name: self.name.clone(),
            capacity: self.capacity,
            initial_station_name: self.initial_station_name.clone(),
        }
    }
}

/// The mark that the name of a reversed route ends in.
pub open spec fn reverse_mark() -> Seq<char> {
    seq!['#', 'r', 'e', 'v']
}

/// The route that runs the other way: end points swapped, same travel
/// time, and a name of its own, the route's name followed by `#rev`.
pub open spec fn reversed(r: RouteView) -> RouteView {
    RouteView { name: r.name + reverse_mark(), from: r.to, to: r.from, travel_time: r.travel_time }
}

impl Route {
    /// The route that runs the other way, by itself. Among the routes of
    /// a network its name may take more marks, so that it is the name of
    /// none of them: `model::Network::try_from` sees to that.
    pub fn reverse(&self) -> (r: Self)
        ensures
            r@ == reversed(self@),
    {
        proof {
            reveal_strlit("#rev");
            assert("#rev"@ =~= reverse_mark());
        }
        Route {
            name: self.name.clone().concat("#rev"),
            from_to: (self.from_to.1.clone(), self.from_to.0.clone()),
            travel_time: self.travel_time,
        }
    }
}

/// The reverse of a route never bears the route's own name.
pub proof fn lemma_reverse_renames(r: RouteView)
    ensures
        reversed(r).name != r.name,
        reversed(r).name.len() == r.name.len() + 4,
{
}

/// The fields of a record: the pieces between its commas. A record
/// without a comma is one field, an empty record one empty field.
pub open spec fn fields(s: Seq<char>) -> Seq<Seq<char>>
    decreases s.len(),
{
    if s.len() == 0 {
        seq![Seq::empty()]
    } else if s.last() == ',' {
        fields(s.drop_last()).push(Seq::empty())
    } else {
        let before = fields(s.drop_last());
        before.drop_last().push(before.last().push(s.last()))
    }
}

/// A record has a field, and one more for each of its commas.
pub proof fn lemma_fields_len(s: Seq<char>)
    ensures
        fields(s).len() == 1 + s.filter(|c: char| c == ',').len(),
    decreases s.len(),
{
    reveal(Seq::filter);
    if s.len() > 0 {
        lemma_fields_len(s.drop_last());
    }
}

/// Whether `s` is made of decimal digits, and of one at least.
pub open spec fn is_digits(s: Seq<char>) -> bool {
    s.len() > 0 && forall|i: int| 0 <= i < s.len() ==> '0' <= #[trigger] s[i] <= '9'
}

/// The number that the decimal digits `s` write.
pub open spec fn digits_value(s: Seq<char>) -> nat
    decreases s.len(),
{
    if s.len() == 0 {
        0
    } else {
        digits_value(s.drop_last()) * 10 + (s.last() as u32 - '0' as u32) as nat
    }
}

/// The number that a field holds: decimal digits, with `+` before them
/// or not, that write a number no greater than `u32::MAX`.
pub open spec fn number(s: Seq<char>) -> Option<u32> {
    let digits = if s.len() > 0 && s[0] == '+' {
        s.skip(1)
    } else {
        s
    };
    if is_digits(digits) && digits_value(digits) <= u32::MAX {
        Some(digits_value(digits) as u32)
    } else {
        None
    }
}

/// The first digits of a number write no more than all of them.
pub proof fn lemma_digits_prefix(s: Seq<char>, k: int)
    requires
        is_digits(s),
        0 <= k <= s.len(),
    ensures
        digits_value(s.take(k)) <= digits_value(s),
    decreases s.len() - k,
{
    if k == s.len() {
        assert(s.take(k) =~= s);
    } else {
        lemma_digits_prefix(s, k + 1);
        assert(s.take(k + 1).drop_last() =~= s.take(k));
        assert('0' <= s[k] <= '9');
    }
}

/// The pieces of the record between its commas.
pub fn split_fields(input: &str) -> (r: Vec<String>)
    ensures
        r@.map_values(|f: String| f@) == fields(input@),
{
    let ghost s = input@;
    let n = input.unicode_len();
    let mut out: Vec<String> = Vec::new();
    let mut start: usize = 0;
    let mut i: usize = 0;
    proof {
        assert(s.subrange(0, 0) =~= Seq::<char>::empty());
        assert(s.take(0) =~= Seq::<char>::empty());
        assert(out@.map_values(|f: String| f@).push(s.subrange(0, 0)) =~= seq![
            Seq::<char>::empty(),
        ]);
    }
    while i < n
        invariant
            start <= i <= n,
            n == s.len(),
            s == input@,
            fields(s.take(i as int)) == out@.map_values(|f: String| f@).push(
                s.subrange(start as int, i as int),
            ),
        decreases n - i,
    {
        let ghost done = out@.map_values(|f: String| f@);
        proof {
            assert(s.take(i + 1).drop_last() =~= s.take(i as int));
            assert(s.take(i + 1).last() == s[i as int]);
            assert(done.push(s.subrange(start as int, i as int)).drop_last() =~= done);
        }
        if input.get_char(i) == ',' {
            out.push(String::from_str(input.substring_char(start, i)));
            proof {
                assert(out@.map_values(|f: String| f@) =~= done.push(
                    s.subrange(start as int, i as int),
                ));
                assert(s.subrange(i + 1, i + 1) =~= Seq::<char>::empty());
            }
            start = i + 1;
        } else {
            assert(s.subrange(start as int, i as int).push(s[i as int]) =~= s.subrange(
                start as int,
                i + 1,
            ));
        }
        i = i + 1;
    }
    let ghost done = out@.map_values(|f: String| f@);
    out.push(String::from_str(input.substring_char(start, n)));
    proof {
        assert(s.take(n as int) =~= s);
        assert(out@.map_values(|f: String| f@) =~= done.push(s.subrange(start as int, n as int)));
    }
    out
}

/// The number that the field holds, if it holds one.
pub fn parse_number(field: &str) -> (r: Option<u32>)
    ensures
        r == number(field@),
{
    let ghost s = field@;
    let n = field.unicode_len();
    let first: usize = if n > 0 && field.get_char(0) == '+' {
        1
    } else {
        0
    };
    let ghost digits = if s.len() > 0 && s[0] == '+' {
        s.skip(1)
    } else {
        s
    };
    proof {
        assert(s.skip(0) =~= s);
    }
    if first == n {
        return None;
    }
    let mut value: u64 = 0;
    let mut i: usize = first;
    assert(digits.take(0) =~= Seq::<char>::empty());
    while i < n
        invariant
            first <= i <= n,
            n == s.len(),
            s == field@,
            digits == s.skip(first as int),
            digits == if s.len() > 0 && s[0] == '+' {
                s.skip(1)
            } else {
                s
            },
            digits.len() == n - first,
            forall|k: int| 0 <= k < i - first ==> '0' <= #[trigger] digits[k] <= '9',
            value == digits_value(digits.take(i - first)),
            value <= u32::MAX,
        decreases n - i,
    {
        let c = field.get_char(i);
        assert(c == digits[i - first]);
        if !(c >= '0' && c <= '9') {
            assert(!is_digits(digits)) by {
                assert(!('0' <= digits[i - first] <= '9'));
            }
            return None;
        }
        proof {
            assert(digits.take(i - first + 1).drop_last() =~= digits.take(i - first));
            assert(digits.take(i - first + 1).last() == c);
        }
        value = value * 10 + (c as u32 - '0' as u32) as u64;
        assert(value == digits_value(digits.take(i - first + 1)));
        if value > u32::MAX as u64 {
            proof {
                if is_digits(digits) {
                    lemma_digits_prefix(digits, i - first + 1);
                }
            }
            return None;
        }
        i = i + 1;
    }
    assert(digits.take(n - first) =~= digits);
    Some(value as u32)
}

/// The station that the record names: the record has one field, its name.
pub fn parse_station(input: &str) -> (r: Result<Station, Error>)
    ensures
        match r {
            Ok(x) => fields(input@) == seq![x@],
            Err(e) => e@ == ErrorView::InputFormat(Record::Station) && fields(input@).len() != 1,
        },
{
    let mut parts = split_fields(input);
    if parts.len() == 1 {
        let name = parts.remove(0);
        assert(fields(input@) =~= seq![name@]);
        Ok(Station { name })
    } else {
        Err(Error::InputFormat(Record::Station))
    }
}

/// The route that the record describes: its name, its two stations and
/// its travel time.
pub fn parse_route(input: &str) -> (r: Result<Route, Error>)
    ensures
        match r {
            Ok(x) => {
                &&& fields(input@).len() == 4
                &&& number(fields(input@)[3]) is Some
                &&& x@ == (RouteView {
                    name: fields(input@)[0],
                    from: fields(input@)[1],
                    to: fields(input@)[2],
                    travel_time: number(fields(input@)[3])->0 as nat,
                })
            },
            Err(e) => e@ == ErrorView::InputFormat(Record::Route) && !(fields(input@).len() == 4
                && number(fields(input@)[3]) is Some),
        },
{
    let parts = split_fields(input);
    if parts.len() != 4 {
        return Err(Error::InputFormat(Record::Route));
    }
    assert(forall|k: int| 0 <= k < 4 ==> fields(input@)[k] == (#[trigger] parts[k])@);
    match parse_number(parts[3].as_str()) {
        Some(travel_time) => Ok(
            Route {
                name: parts[0].clone(),
                from_to: (parts[1].clone(), parts[2].clone()),
                travel_time,
            },
        ),
        None => Err(Error::InputFormat(Record::Route)),
    }
}

/// The package that the record describes: its name, its weight, where it
/// waits and where it has to go.
pub fn parse_package(input: &str) -> (r: Result<Package, Error>)
    ensures
        match r {
            Ok(x) => {
                &&& fields(input@).len() == 4
                &&& number(fields(input@)[1]) is Some
                &&& x@ == (PackageView {
                    name: fields(input@)[0],
                    weight: number(fields(input@)[1])->0 as nat,
                    from: fields(input@)[2],
                    to: fields(input@)[3],
                })
            },
            Err(e) => e@ == ErrorView::InputFormat(Record::Package) && !(fields(input@).len() == 4
                && number(fields(input@)[1]) is Some),
        },
{
    let parts = split_fields(input);
    if parts.len() != 4 {
        return Err(Error::InputFormat(Record::Package));
    }
    assert(forall|k: int| 0 <= k < 4 ==> fields(input@)[k] == (#[trigger] parts[k])@);
    match parse_number(parts[1].as_str()) {
        Some(weight) => Ok(
            Package {
                name: parts[0].clone(),
                weight,
                from_to: (parts[2].clone(), parts[3].clone()),
            },
        ),
        None => Err(Error::InputFormat(Record::Package)),
    }
}

/// The train that the record describes: its name, its capacity and the
/// station at which it starts.
pub fn parse_train(input: &str) -> (r: Result<Train, Error>)
    ensures
        match r {
            Ok(x) => {
                &&& fields(input@).len() == 3
                &&& number(fields(input@)[1]) is Some
                &&& x@ == (TrainView {
                    name: fields(input@)[0],
                    capacity: number(fields(input@)[1])->0 as nat,
                    initial_station: fields(input@)[2],
                })
            },
            Err(e) => e@ == ErrorView::InputFormat(Record::Train) && !(fields(input@).len() == 3
                && number(fields(input@)[1]) is Some),
        },
{
    let parts = split_fields(input);
    if parts.len() != 3 {
        return Err(Error::InputFormat(Record::Train));
    }
    assert(forall|k: int| 0 <= k < 3 ==> fields(input@)[k] == (#[trigger] parts[k])@);
    match parse_number(parts[1].as_str()) {
        Some(capacity) => Ok(
            Train { name: parts[0].clone(), capacity, initial_station_name: parts[2].clone() },
        ),
        None => Err(Error::InputFormat(Record::Train)),
    }
}

} // verus!
