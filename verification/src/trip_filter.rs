use vstd::prelude::*;
use crate::data::{Date, Trip, is_business_day};

verus! {

/// Membership of a station name in a caller-supplied list of station names.
pub open spec fn in_set(names: Seq<String>, s: Seq<char>) -> bool {
    exists|i: int| 0 <= i < names.len() && names[i]@ == s
}

/// Exact-string membership test against a station list.
fn contains_station(stations: &Vec<String>, name: &String) -> (r: bool)
    ensures
        r == in_set(stations@, name@),
{
    let mut i: usize = 0;
    while i < stations.len()
        invariant
            0 <= i <= stations@.len(),
            forall|j: int| 0 <= j < i ==> stations@[j]@ != name@,
        decreases stations@.len() - i,
    {
        if stations[i] == *name {
            assert(stations@[i as int]@ == name@);
            return true;
        }
        i += 1;
    }
    false
}

/// Keeps the legs whose date falls on a business day, Monday through Friday,
/// in their original order.
pub fn trip_workday_filter(all_trips: Vec<Trip>) -> (result: Vec<Trip>)
    ensures
        result@ == all_trips@.filter(|t: Trip| is_business_day(t.date)),
{
    let mut result: Vec<Trip> = Vec::new();
    let mut index: usize = 0;
    proof {
        reveal_with_fuel(Seq::<_>::filter, 2);
        assert(all_trips@.take(0) =~= Seq::<Trip>::empty());
        assert(Seq::<Trip>::empty().filter(|t: Trip| is_business_day(t.date))
            =~= Seq::<Trip>::empty());
    }
    while index < all_trips.len()
        invariant
            index <= all_trips@.len(),
            result@ == all_trips@.take(index as int).filter(|t: Trip| is_business_day(t.date)),
        decreases all_trips@.len() - index,
    {
        let trip = &all_trips[index];
        let wd = trip.date.weekday_number_from_monday();
        if wd <= 5 {
            result.push(trip.clone());
        }
        proof {
            reveal_with_fuel(Seq::<_>::filter, 2);
            let pred = |t: Trip| is_business_day(t.date);
            let t = all_trips@[index as int];
            let prefix = all_trips@.take(index as int);
            assert(all_trips@.take(index as int + 1) =~= prefix + seq![t]);
            Seq::filter_distributes_over_add(prefix, seq![t], pred);
            assert(seq![t].drop_last() =~= Seq::<Trip>::empty());
            assert(Seq::<Trip>::empty().filter(pred) =~= Seq::<Trip>::empty());
            if pred(t) {
                assert(seq![t].filter(pred) =~= seq![t]);
                assert(result@ =~= prefix.filter(pred) + seq![t]);
            } else {
                assert(seq![t].filter(pred) =~= Seq::<Trip>::empty());
                assert(result@ =~= prefix.filter(pred) + seq![t].filter(pred));
            }
        }
        index += 1;
    }
    proof {
        assert(all_trips@.take(index as int) =~= all_trips@);
    }
    result
}

/// The direction a chain under construction is headed in.
#[derive(Clone, Copy, PartialEq, Eq, Structural)]
pub enum ChainDir {
    /// The chain started at a departure-side station and seeks an
    /// arrival-side station.
    ToWork,
    /// The chain started at an arrival-side station and seeks a
    /// departure-side station.
    ToHome,
}

/// The scan state of the reconstruction filter between two legs: either no
/// chain is open, or a chain is open with its direction, its anchor date and
/// the legs buffered so far.
#[verifier::ext_equal]
pub enum ChainState {
    Idle,
    Active { dir: ChainDir, anchor: Date, buffer: Seq<Trip> },
}

/// A single leg whose endpoints satisfy the station-set pairing on their own,
/// in either direction.
pub open spec fn direct_match(t: Trip, from: Seq<String>, to: Seq<String>) -> bool {
    (in_set(from, t.from@) && in_set(to, t.to@)) || (in_set(from, t.to@) && in_set(to, t.from@))
}

/// Whether a leg just appended to a chain of direction `dir` lands in the
/// opposite station set and so completes the journey.
pub open spec fn completes(dir: ChainDir, t: Trip, from: Seq<String>, to: Seq<String>) -> bool {
    match dir {
        ChainDir::ToWork => in_set(to, t.to@),
        ChainDir::ToHome => in_set(from, t.to@),
    }
}

/// Continuity failure: the candidate leg is on another day than the chain's
/// anchor date, or does not depart where the last buffered leg arrived.
pub open spec fn chain_breaks(anchor: Date, buffer: Seq<Trip>, t: Trip) -> bool {
    t.date != anchor || buffer.last().to@ != t.from@
}

/// One step of the filter on a leg seen with no chain open: a direct match is
/// emitted at once, a leg departing from either station set opens a chain,
/// and any other leg is ignored.
pub open spec fn step_idle(t: Trip, from: Seq<String>, to: Seq<String>) -> (ChainState, Seq<
    Trip,
>) {
    if direct_match(t, from, to) {
        (ChainState::Idle, seq![t])
    } else if in_set(from, t.from@) {
        (ChainState::Active { dir: ChainDir::ToWork, anchor: t.date, buffer: seq![t] }, Seq::empty())
    } else if in_set(to, t.from@) {
        (ChainState::Active { dir: ChainDir::ToHome, anchor: t.date, buffer: seq![t] }, Seq::empty())
    } else {
        (ChainState::Idle, Seq::empty())
    }
}

/// One step of the filter: the next state and the legs emitted for one
/// incoming leg.
///
/// A zero-fare leg is invisible: it changes nothing and is never emitted. A
/// continuity failure discards the whole buffer and re-evaluates the failing
/// leg as a fresh potential chain start in the same step. A leg that extends
/// an open chain and lands in the opposite station set flushes the entire
/// buffer into the output.
pub open spec fn step(st: ChainState, t: Trip, from: Seq<String>, to: Seq<String>) -> (ChainState,
    Seq<Trip>) {
    if t.price == 0 {
        (st, Seq::empty())
    } else {
        match st {
            ChainState::Idle => step_idle(t, from, to),
            ChainState::Active { dir, anchor, buffer } => {
                if chain_breaks(anchor, buffer, t) {
                    step_idle(t, from, to)
                } else {
                    let buf2 = buffer.push(t);
                    if completes(dir, t, from, to) {
                        (ChainState::Idle, buf2)
                    } else {
                        (ChainState::Active { dir, anchor, buffer: buf2 }, Seq::empty())
                    }
                }
            },
        }
    }
}

/// Everything the filter emits while scanning `trips` from state `st`. A
/// chain still open when the input ends is dropped.
pub open spec fn run(trips: Seq<Trip>, st: ChainState, from: Seq<String>, to: Seq<String>) -> Seq<
    Trip,
>
    decreases trips.len(),
{
    if trips.len() == 0 {
        Seq::empty()
    } else {
        let r = step(st, trips[0], from, to);
        r.1 + run(trips.drop_first(), r.0, from, to)
    }
}

/// The whole reconstruction filter as a function of its inputs: the legs
/// emitted by a scan of `trips` that starts with no chain open.
pub open spec fn station_filter_spec(trips: Seq<Trip>, from: Seq<String>, to: Seq<String>) -> Seq<
    Trip,
> {
    run(trips, ChainState::Idle, from, to)
}

/// The scan state that the filter's loop variables stand for.
spec fn loop_state(
    in_chain: bool,
    direction: Direction,
    anchor: Date,
    buffer: Seq<Trip>,
) -> ChainState {
    if in_chain {
        ChainState::Active {
            dir: match direction {
                Direction::ToWork => ChainDir::ToWork,
                _ => ChainDir::ToHome,
            },
            anchor,
            buffer,
        }
    } else {
        ChainState::Idle
    }
}

/// The tri-state direction tag the scan loop carries.
#[derive(Clone, Copy, PartialEq, Eq, Structural)]
enum Direction {
    ToWork,
    ToHome,
    Idle,
}

/// Reconstructs the qualifying commute journeys in `all_trips`.
///
/// The input must list the legs in the order they appear on the statement:
/// non-decreasing date, physical travel order within a date. The result holds
/// exactly the legs of qualifying journeys, in their original order: direct
/// matches between the two station sets, and complete same-day transfer
/// chains that start in one set and end in the other.
pub fn trip_station_filter(all_trips: Vec<Trip>, from: Vec<String>, to: Vec<String>) -> (result:
    Vec<Trip>)
    ensures
        result@ == station_filter_spec(all_trips@, from@, to@),
{
    let mut result: Vec<Trip> = Vec::new();
    let mut tmp_trips: Vec<Trip> = Vec::new();
    let mut in_chain: bool = false;
    let mut direction: Direction = Direction::Idle;
    let mut current_date: Date = Date { year: 0, month: 1, day: 1 };
    let mut index: usize = 0;
    proof {
        assert(all_trips@.skip(0) =~= all_trips@);
        assert(Seq::<Trip>::empty() + station_filter_spec(all_trips@, from@, to@)
            =~= station_filter_spec(all_trips@, from@, to@));
    }
    while index < all_trips.len()
        invariant
            index <= all_trips@.len(),
            in_chain ==> tmp_trips@.len() > 0,
            in_chain ==> !(direction is Idle),
            !in_chain ==> tmp_trips@.len() == 0,
            result@ + run(
                all_trips@.skip(index as int),
                loop_state(in_chain, direction, current_date, tmp_trips@),
                from@,
                to@,
            ) == station_filter_spec(all_trips@, from@, to@),
        decreases all_trips@.len() - index,
    {
        let ghost pre_result = result@;
        let ghost pre_state = loop_state(in_chain, direction, current_date, tmp_trips@);
        let ghost rest = all_trips@.skip(index as int);
        proof {
            assert(rest[0] == all_trips@[index as int]);
            assert(rest.drop_first() =~= all_trips@.skip(index as int + 1));
        }
        let trip = &all_trips[index];
        if trip.price == 0 {
        } else {
            let mut idle_now: bool = !in_chain;
            if in_chain {
                if !(trip.date == current_date) || !(tmp_trips[tmp_trips.len() - 1].to
                    == trip.from) {
                    tmp_trips = Vec::new();
                    in_chain = false;
                    direction = Direction::Idle;
                    idle_now = true;
                } else {
                    tmp_trips.push(trip.clone());
                    let done: bool = match direction {
                        Direction::ToHome => contains_station(&from, &trip.to),
                        Direction::ToWork => contains_station(&to, &trip.to),
                        Direction::Idle => false,
                    };
                    if done {
                        result.append(&mut tmp_trips);
                        in_chain = false;
                        direction = Direction::Idle;
                    }
                }
            }
            if idle_now {
                let df = contains_station(&from, &trip.from);
                let dt = contains_station(&to, &trip.to);
                let rf = contains_station(&from, &trip.to);
                let rt = contains_station(&to, &trip.from);
                if (df && dt) || (rf && rt) {
                    result.push(trip.clone());
                } else if df {
                    direction = Direction::ToWork;
                    current_date = trip.date;
                    tmp_trips.push(trip.clone());
                    in_chain = true;
                } else if rt {
                    direction = Direction::ToHome;
                    current_date = trip.date;
                    tmp_trips.push(trip.clone());
                    in_chain = true;
                }
            }
        }
        proof {
            let t = all_trips@[index as int];
            let stepped = step(pre_state, t, from@, to@);
            assert(result@ =~= pre_result + stepped.1);
            assert(loop_state(in_chain, direction, current_date, tmp_trips@) =~= stepped.0);
            assert(pre_result + run(rest, pre_state, from@, to@) == pre_result + (stepped.1 + run(
                rest.drop_first(),
                stepped.0,
                from@,
                to@,
            )));
            assert(pre_result + (stepped.1 + run(rest.drop_first(), stepped.0, from@, to@))
                =~= (pre_result + stepped.1) + run(rest.drop_first(), stepped.0, from@, to@));
        }
        index += 1;
    }
    proof {
        assert(all_trips@.skip(index as int) =~= Seq::<Trip>::empty());
    }
    result
}

} // verus!

