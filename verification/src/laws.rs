use vstd::prelude::*;
use crate::data::Trip;
use crate::trip_filter::{
    ChainDir, ChainState, chain_breaks, completes, direct_match, in_set, run, station_filter_spec,
    step, step_idle,
};

verus! {

/// A direct two-station match at the head of the input is always emitted, and
/// the remaining legs are filtered independently of it, whatever the overlap
/// of the two station sets.
pub proof fn lemma_direct_match_emitted(t: Trip, rest: Seq<Trip>, from: Seq<String>, to: Seq<
    String,
>)
    requires
        t.price != 0,
        direct_match(t, from, to),
    ensures
        station_filter_spec(seq![t] + rest, from, to) == seq![t] + station_filter_spec(
            rest,
            from,
            to,
        ),
{
    let whole = seq![t] + rest;
    assert(whole[0] == t);
    assert(whole.drop_first() =~= rest);
    assert(step(ChainState::Idle, t, from, to).1 == seq![t]);
    assert(step(ChainState::Idle, t, from, to).0 == ChainState::Idle);
}

/// A two-leg chain on one date, from a departure-side station over a transfer
/// to an arrival-side station, is emitted whole — both legs, never only one —
/// provided its first leg is not already a direct match on its own.
pub proof fn lemma_chain_completion(l1: Trip, l2: Trip, from: Seq<String>, to: Seq<String>)
    requires
        l1.price != 0,
        l2.price != 0,
        l1.date == l2.date,
        l1.to@ == l2.from@,
        in_set(from, l1.from@),
        in_set(to, l2.to@),
        !direct_match(l1, from, to),
    ensures
        station_filter_spec(seq![l1, l2], from, to) == seq![l1, l2],
{
    let whole = seq![l1, l2];
    assert(whole.drop_first() =~= seq![l2]);
    assert(seq![l2].drop_first() =~= Seq::<Trip>::empty());
    let st1 = step(ChainState::Idle, l1, from, to).0;
    assert(st1 == (ChainState::Active { dir: ChainDir::ToWork, anchor: l1.date, buffer: seq![l1] }));
    assert(!chain_breaks(l1.date, seq![l1], l2));
    assert(completes(ChainDir::ToWork, l2, from, to));
    assert(step(st1, l2, from, to).1 == seq![l1].push(l2));
    assert(run(whole, ChainState::Idle, from, to) == Seq::<Trip>::empty() + run(
        seq![l2],
        st1,
        from,
        to,
    ));
    assert(run(seq![l2], st1, from, to) == seq![l1].push(l2) + run(
        Seq::<Trip>::empty(),
        ChainState::Idle,
        from,
        to,
    ));
    assert(run(Seq::<Trip>::empty(), ChainState::Idle, from, to) == Seq::<Trip>::empty());
    assert(station_filter_spec(seq![l1, l2], from, to) =~= seq![l1, l2]);
}

/// A leg that breaks an open chain by not departing where the chain last
/// arrived discards the whole buffer, and the scan continues exactly as if
/// the scan had started at the breaking leg: the chain's opening leg leaves
/// no trace in the output.
pub proof fn lemma_broken_chain_discard(l1: Trip, l2: Trip, rest: Seq<Trip>, from: Seq<String>,
    to: Seq<String>)
    requires
        l1.price != 0,
        l2.price != 0,
        !direct_match(l1, from, to),
        in_set(from, l1.from@) || in_set(to, l1.from@),
        l1.to@ != l2.from@,
    ensures
        station_filter_spec(seq![l1, l2] + rest, from, to) == station_filter_spec(
            seq![l2] + rest,
            from,
            to,
        ),
{
    lemma_restart_after_break(l1, l2, rest, from, to);
}

/// A chain opened on one date is discarded when the next non-zero-fare leg
/// carries another date, even where station adjacency would otherwise hold;
/// the newer leg is evaluated as a fresh start.
pub proof fn lemma_cross_date_reset(l1: Trip, l2: Trip, rest: Seq<Trip>, from: Seq<String>, to: Seq<
    String,
>)
    requires
        l1.price != 0,
        l2.price != 0,
        !direct_match(l1, from, to),
        in_set(from, l1.from@) || in_set(to, l1.from@),
        l1.date != l2.date,
    ensures
        station_filter_spec(seq![l1, l2] + rest, from, to) == station_filter_spec(
            seq![l2] + rest,
            from,
            to,
        ),
{
    lemma_restart_after_break(l1, l2, rest, from, to);
}

/// Inserting a zero-fare leg anywhere in the input changes nothing: it
/// neither starts, extends nor breaks a chain, and it is never emitted.
pub proof fn lemma_zero_fare_transparent(trips: Seq<Trip>, i: int, z: Trip, from: Seq<String>,
    to: Seq<String>)
    requires
        0 <= i <= trips.len(),
        z.price == 0,
    ensures
        station_filter_spec(trips.insert(i, z), from, to) == station_filter_spec(trips, from, to),
{
    lemma_run_insert_zero(trips, ChainState::Idle, i, z, from, to);
}

proof fn lemma_run_insert_zero(trips: Seq<Trip>, st: ChainState, i: int, z: Trip, from: Seq<
    String,
>, to: Seq<String>)
    requires
        0 <= i <= trips.len(),
        z.price == 0,
    ensures
        run(trips.insert(i, z), st, from, to) == run(trips, st, from, to),
    decreases i,
{
    let ext = trips.insert(i, z);
    trips.insert_ensures(i, z);
    if i == 0 {
        assert(ext[0] == z);
        assert(ext.drop_first() =~= trips);
        assert(step(st, z, from, to).1 == Seq::<Trip>::empty());
        assert(step(st, z, from, to).0 == st);
        assert(run(ext, st, from, to) == Seq::<Trip>::empty() + run(trips, st, from, to));
        assert(Seq::<Trip>::empty() + run(trips, st, from, to) =~= run(trips, st, from, to));
    } else {
        assert(ext[0] == trips[0]);
        assert(ext.drop_first() =~= trips.drop_first().insert(i - 1, z));
        let r = step(st, trips[0], from, to);
        lemma_run_insert_zero(trips.drop_first(), r.0, i - 1, z, from, to);
        assert(run(ext, st, from, to) == r.1 + run(
            trips.drop_first().insert(i - 1, z),
            r.0,
            from,
            to,
        ));
        assert(run(trips, st, from, to) == r.1 + run(trips.drop_first(), r.0, from, to));
    }
}

/// The legs a chain state has buffered: what could still be emitted besides
/// the input that is yet to be scanned.
spec fn pending(st: ChainState) -> Seq<Trip> {
    match st {
        ChainState::Idle => Seq::empty(),
        ChainState::Active { buffer, .. } => buffer,
    }
}

/// No zero-fare leg is ever buffered, so none is ever emitted.
proof fn lemma_run_no_zero_fare(trips: Seq<Trip>, st: ChainState, from: Seq<String>, to: Seq<
    String,
>)
    requires
        forall|j: int| 0 <= j < pending(st).len() ==> pending(st)[j].price != 0,
    ensures
        forall|j: int|
            0 <= j < run(trips, st, from, to).len() ==> run(trips, st, from, to)[j].price != 0,
    decreases trips.len(),
{
    if trips.len() > 0 {
        let t = trips[0];
        let r = step(st, t, from, to);
        if t.price != 0 && st is Active && !chain_breaks(st->Active_anchor, st->Active_buffer, t) {
            let buffer = st->Active_buffer;
            let buf2 = buffer.push(t);
            assert(pending(st) == buffer);
            assert forall|j: int| 0 <= j < buf2.len() implies buf2[j].price != 0 by {
                if j < buffer.len() {
                    assert(buf2[j] == pending(st)[j]);
                } else {
                    assert(buf2[j] == t);
                }
            }
        }
        assert(forall|j: int| 0 <= j < pending(r.0).len() ==> pending(r.0)[j].price != 0);
        lemma_run_no_zero_fare(trips.drop_first(), r.0, from, to);
        assert(forall|j: int| 0 <= j < r.1.len() ==> r.1[j].price != 0);
    }
}

/// Every leg of the output carries a non-zero fare: zero-fare decoy rows are
/// removed.
pub proof fn lemma_no_zero_fare_in_output(trips: Seq<Trip>, from: Seq<String>, to: Seq<String>)
    ensures
        forall|j: int|
            0 <= j < station_filter_spec(trips, from, to).len() ==> station_filter_spec(
                trips,
                from,
                to,
            )[j].price != 0,
{
    lemma_run_no_zero_fare(trips, ChainState::Idle, from, to);
}

/// Shared argument for the two discard laws: when the second leg fails the
/// continuity check against the chain the first leg opened, the output is the
/// output of a scan that never saw the first leg.
proof fn lemma_restart_after_break(l1: Trip, l2: Trip, rest: Seq<Trip>, from: Seq<String>, to: Seq<
    String,
>)
    requires
        l1.price != 0,
        l2.price != 0,
        !direct_match(l1, from, to),
        in_set(from, l1.from@) || in_set(to, l1.from@),
        l1.date != l2.date || l1.to@ != l2.from@,
    ensures
        station_filter_spec(seq![l1, l2] + rest, from, to) == station_filter_spec(
            seq![l2] + rest,
            from,
            to,
        ),
{
    let whole = seq![l1, l2] + rest;
    let tail = seq![l2] + rest;
    assert(whole[0] == l1);
    assert(whole.drop_first() =~= tail);
    let st1 = step(ChainState::Idle, l1, from, to).0;
    assert(st1 is Active && st1->Active_buffer == seq![l1] && st1->Active_anchor == l1.date);
    assert(step(ChainState::Idle, l1, from, to).1 == Seq::<Trip>::empty());
    assert(tail[0] == l2);
    assert(chain_breaks(l1.date, seq![l1], l2));
    assert(step(st1, l2, from, to) == step_idle(l2, from, to));
    assert(step(ChainState::Idle, l2, from, to) == step_idle(l2, from, to));
    assert(run(whole, ChainState::Idle, from, to) == Seq::<Trip>::empty() + run(
        tail,
        st1,
        from,
        to,
    ));
    let r2 = step_idle(l2, from, to);
    assert(run(tail, st1, from, to) == r2.1 + run(tail.drop_first(), r2.0, from, to));
    assert(run(tail, ChainState::Idle, from, to) == r2.1 + run(
        tail.drop_first(),
        r2.0,
        from,
        to,
    ));
    assert(run(whole, ChainState::Idle, from, to) =~= run(tail, ChainState::Idle, from, to));
}

/// `s` appears inside `t` in order: `t` with some elements struck out, the
/// rest kept in their relative order.
pub open spec fn is_subseq(s: Seq<Trip>, t: Seq<Trip>) -> bool
    decreases t.len(),
{
    if s.len() == 0 {
        true
    } else if t.len() == 0 {
        false
    } else {
        (s[0] == t[0] && is_subseq(s.drop_first(), t.drop_first())) || is_subseq(
            s,
            t.drop_first(),
        )
    }
}

/// A subsequence of `t` is a subsequence of `t` with one more element in
/// front.
proof fn lemma_subseq_cons_super(s: Seq<Trip>, t: Seq<Trip>, x: Trip)
    requires
        is_subseq(s, t),
    ensures
        is_subseq(s, seq![x] + t),
{
    if s.len() > 0 {
        assert((seq![x] + t).drop_first() =~= t);
    }
}

/// A subsequence of `t` is a subsequence of `t` with anything in front.
proof fn lemma_subseq_prepend_super(a: Seq<Trip>, s: Seq<Trip>, t: Seq<Trip>)
    requires
        is_subseq(s, t),
    ensures
        is_subseq(s, a + t),
    decreases a.len(),
{
    if a.len() == 0 {
        assert(a + t =~= t);
    } else {
        lemma_subseq_prepend_super(a.drop_first(), s, t);
        lemma_subseq_cons_super(s, a.drop_first() + t, a[0]);
        assert(seq![a[0]] + (a.drop_first() + t) =~= a + t);
    }
}

/// Prefixing both sequences with the same legs keeps the subsequence
/// relation.
proof fn lemma_subseq_prepend_both(a: Seq<Trip>, s: Seq<Trip>, t: Seq<Trip>)
    requires
        is_subseq(s, t),
    ensures
        is_subseq(a + s, a + t),
    decreases a.len(),
{
    if a.len() == 0 {
        assert(a + s =~= s);
        assert(a + t =~= t);
    } else {
        lemma_subseq_prepend_both(a.drop_first(), s, t);
        assert((a + s).len() > 0);
        assert((a + s)[0] == a[0] && (a + t)[0] == a[0]);
        assert((a + s).drop_first() =~= a.drop_first() + s);
        assert((a + t).drop_first() =~= a.drop_first() + t);
    }
}

/// Striking one more element out of the middle of the larger sequence keeps
/// every subsequence of the remainder a subsequence of the whole.
proof fn lemma_subseq_insert_middle(s: Seq<Trip>, a: Seq<Trip>, b: Seq<Trip>, x: Trip)
    requires
        is_subseq(s, a + b),
    ensures
        is_subseq(s, a + seq![x] + b),
    decreases a.len(),
{
    if a.len() == 0 {
        assert(a + b =~= b);
        lemma_subseq_cons_super(s, b, x);
        assert(a + seq![x] + b =~= seq![x] + b);
    } else if s.len() == 0 {
    } else {
        assert((a + b).len() > 0);
        assert((a + b)[0] == a[0]);
        assert((a + b).drop_first() =~= a.drop_first() + b);
        assert((a + seq![x] + b)[0] == a[0]);
        assert((a + seq![x] + b).drop_first() =~= a.drop_first() + seq![x] + b);
        if s[0] == (a + b)[0] && is_subseq(s.drop_first(), (a + b).drop_first()) {
            lemma_subseq_insert_middle(s.drop_first(), a.drop_first(), b, x);
        }
        if is_subseq(s, (a + b).drop_first()) {
            lemma_subseq_insert_middle(s, a.drop_first(), b, x);
        }
    }
}

/// Whatever state a scan is in, everything it will emit is drawn, in order,
/// from what it has buffered followed by what it has not read yet.
proof fn lemma_run_subseq(trips: Seq<Trip>, st: ChainState, from: Seq<String>, to: Seq<String>)
    ensures
        is_subseq(run(trips, st, from, to), pending(st) + trips),
    decreases trips.len(),
{
    let out = run(trips, st, from, to);
    if trips.len() == 0 {
    } else {
        let t = trips[0];
        let rest = trips.drop_first();
        let r = step(st, t, from, to);
        lemma_run_subseq(rest, r.0, from, to);
        let out2 = run(rest, r.0, from, to);
        assert(out == r.1 + out2);
        if t.price == 0 {
            assert(r.0 == st && r.1 == Seq::<Trip>::empty());
            assert(r.1 + out2 =~= out2);
            lemma_subseq_insert_middle(out2, pending(st), rest, t);
            assert(pending(st) + seq![t] + rest =~= pending(st) + trips);
        } else {
            let reached_idle = st is Idle || chain_breaks(st->Active_anchor, st->Active_buffer, t);
            if reached_idle {
                // the step behaves as from an idle state; any discarded
                // buffer only enlarges the containing sequence
                if direct_match(t, from, to) {
                    assert(r.1 == seq![t] && r.0 == ChainState::Idle);
                    assert(pending(r.0) + rest =~= rest);
                    lemma_subseq_prepend_both(seq![t], out2, rest);
                    assert(seq![t] + rest =~= seq![t] + rest);
                    lemma_subseq_prepend_super(pending(st), r.1 + out2, seq![t] + rest);
                    assert(pending(st) + (seq![t] + rest) =~= pending(st) + trips);
                } else if in_set(from, t.from@) || in_set(to, t.from@) {
                    assert(r.1 == Seq::<Trip>::empty());
                    assert(pending(r.0) == seq![t]);
                    assert(pending(r.0) + rest =~= seq![t] + rest);
                    assert(r.1 + out2 =~= out2);
                    lemma_subseq_prepend_super(pending(st), out2, seq![t] + rest);
                    assert(pending(st) + (seq![t] + rest) =~= pending(st) + trips);
                } else {
                    assert(r.1 == Seq::<Trip>::empty() && r.0 == ChainState::Idle);
                    assert(pending(r.0) + rest =~= rest);
                    assert(r.1 + out2 =~= out2);
                    lemma_subseq_cons_super(out2, rest, t);
                    lemma_subseq_prepend_super(pending(st), out2, seq![t] + rest);
                    assert(pending(st) + (seq![t] + rest) =~= pending(st) + trips);
                }
            } else {
                let buffer = st->Active_buffer;
                let buf2 = buffer.push(t);
                if completes(st->Active_dir, t, from, to) {
                    assert(r.1 == buf2 && r.0 == ChainState::Idle);
                    assert(pending(r.0) + rest =~= rest);
                    lemma_subseq_prepend_both(buf2, out2, rest);
                    assert(buf2 + rest =~= pending(st) + trips);
                } else {
                    assert(r.1 == Seq::<Trip>::empty());
                    assert(pending(r.0) == buf2);
                    assert(r.1 + out2 =~= out2);
                    assert(buf2 + rest =~= pending(st) + trips);
                }
            }
        }
    }
}

/// The direction a chain opened by `t` gets: the departure-side set is
/// checked first.
spec fn chain_dir_of(t: Trip, from: Seq<String>, to: Seq<String>) -> ChainDir {
    if in_set(from, t.from@) {
        ChainDir::ToWork
    } else {
        ChainDir::ToHome
    }
}

/// A leg that opens a chain when scanned with no chain in progress.
spec fn opens_chain(t: Trip, from: Seq<String>, to: Seq<String>) -> bool {
    &&& t.price != 0
    &&& !direct_match(t, from, to)
    &&& (in_set(from, t.from@) || in_set(to, t.from@))
}

/// Everything that holds of an open chain state that a scan reached from an
/// idle start: the buffer was opened by its first leg, runs on one date with
/// seamless transfers, and no buffered leg after the first has yet landed in
/// the opposite station set.
spec fn state_wf(st: ChainState, from: Seq<String>, to: Seq<String>) -> bool {
    match st {
        ChainState::Idle => true,
        ChainState::Active { dir, anchor, buffer } => {
            &&& buffer.len() >= 1
            &&& opens_chain(buffer[0], from, to)
            &&& dir == chain_dir_of(buffer[0], from, to)
            &&& anchor == buffer[0].date
            &&& forall|j: int| 0 <= j < buffer.len() ==> (#[trigger] buffer[j]).price != 0
            &&& forall|j: int| 0 <= j < buffer.len() ==> (#[trigger] buffer[j]).date == anchor
            &&& forall|j: int| 0 < j < buffer.len() ==> (#[trigger] buffer[j]).from@ == buffer[
                j - 1
            ].to@
            &&& forall|j: int|
                0 < j < buffer.len() ==> !completes(dir, #[trigger] buffer[j], from, to)
        },
    }
}

/// A complete emitted chain: opened by its first leg, continuous on one
/// date, completed by its last leg and by no earlier one.
spec fn chain_block(c: Seq<Trip>, from: Seq<String>, to: Seq<String>) -> bool {
    &&& c.len() >= 2
    &&& opens_chain(c[0], from, to)
    &&& forall|j: int| 0 <= j < c.len() ==> (#[trigger] c[j]).price != 0
    &&& forall|j: int| 0 <= j < c.len() ==> (#[trigger] c[j]).date == c[0].date
    &&& forall|j: int| 0 < j < c.len() ==> (#[trigger] c[j]).from@ == c[j - 1].to@
    &&& forall|j: int|
        0 < j < c.len() - 1 ==> !completes(chain_dir_of(c[0], from, to), #[trigger] c[j], from, to)
    &&& completes(chain_dir_of(c[0], from, to), c.last(), from, to)
}

/// Rescanning a complete chain from an idle state buffers it leg by leg and
/// flushes it whole on its last leg.
#[verifier::rlimit(60)]
proof fn lemma_chain_block_replay_from(c: Seq<Trip>, j: int, rest: Seq<Trip>, from: Seq<String>,
    to: Seq<String>)
    requires
        chain_block(c, from, to),
        1 <= j < c.len(),
    ensures
        run(
            c.skip(j) + rest,
            ChainState::Active {
                dir: chain_dir_of(c[0], from, to),
                anchor: c[0].date,
                buffer: c.take(j),
            },
            from,
            to,
        ) == c + run(rest, ChainState::Idle, from, to),
    decreases c.len() - j,
{
    let dir = chain_dir_of(c[0], from, to);
    let st = ChainState::Active { dir, anchor: c[0].date, buffer: c.take(j) };
    let input = c.skip(j) + rest;
    let t = c[j];
    assert(input[0] == t);
    assert(input.drop_first() =~= c.skip(j + 1) + rest);
    assert(c.take(j).last() == c[j - 1]);
    assert(!chain_breaks(c[0].date, c.take(j), t));
    assert(c.take(j).push(t) =~= c.take(j + 1));
    let r = step(st, t, from, to);
    if j == c.len() - 1 {
        assert(completes(dir, t, from, to));
        assert(c.take(j + 1) =~= c);
        assert(r.0 == ChainState::Idle);
        assert(r.1 == c.take(j).push(t));
        assert(c.skip(j + 1) + rest =~= rest);
        assert(run(input, st, from, to) == r.1 + run(rest, ChainState::Idle, from, to));
        assert(r.1 + run(rest, ChainState::Idle, from, to) =~= c + run(
            rest,
            ChainState::Idle,
            from,
            to,
        ));
    } else {
        assert(!completes(dir, t, from, to));
        assert(r.0 =~= (ChainState::Active { dir, anchor: c[0].date, buffer: c.take(j + 1) }));
        assert(r.1 == Seq::<Trip>::empty());
        lemma_chain_block_replay_from(c, j + 1, rest, from, to);
        assert(run(input, st, from, to) == Seq::<Trip>::empty() + run(
            c.skip(j + 1) + rest,
            r.0,
            from,
            to,
        ));
        assert(Seq::<Trip>::empty() + (c + run(rest, ChainState::Idle, from, to)) =~= c + run(
            rest,
            ChainState::Idle,
            from,
            to,
        ));
    }
}

/// A complete chain at the head of the input is emitted whole, and the
/// remaining legs are filtered independently of it.
proof fn lemma_chain_block_replay(c: Seq<Trip>, rest: Seq<Trip>, from: Seq<String>, to: Seq<
    String,
>)
    requires
        chain_block(c, from, to),
    ensures
        run(c + rest, ChainState::Idle, from, to) == c + run(rest, ChainState::Idle, from, to),
{
    let input = c + rest;
    assert(input[0] == c[0]);
    assert(input.drop_first() =~= c.skip(1) + rest);
    let r = step(ChainState::Idle, c[0], from, to);
    assert(seq![c[0]] =~= c.take(1));
    assert(r.0 =~= (ChainState::Active {
        dir: chain_dir_of(c[0], from, to),
        anchor: c[0].date,
        buffer: c.take(1),
    }));
    assert(r.1 == Seq::<Trip>::empty());
    lemma_chain_block_replay_from(c, 1, rest, from, to);
    assert(run(input, ChainState::Idle, from, to) == Seq::<Trip>::empty() + run(
        c.skip(1) + rest,
        r.0,
        from,
        to,
    ));
    assert(Seq::<Trip>::empty() + (c + run(rest, ChainState::Idle, from, to)) =~= c + run(
        rest,
        ChainState::Idle,
        from,
        to,
    ));
}

/// One step of a well-formed scan leaves a well-formed state.
#[verifier::rlimit(100)]
proof fn lemma_step_wf(st: ChainState, t: Trip, from: Seq<String>, to: Seq<String>)
    requires
        state_wf(st, from, to),
    ensures
        state_wf(step(st, t, from, to).0, from, to),
{
    let r = step(st, t, from, to);
    if t.price != 0 && !(st is Idle) && !chain_breaks(st->Active_anchor, st->Active_buffer, t)
        && !completes(st->Active_dir, t, from, to) {
        let buffer = st->Active_buffer;
        let buf2 = buffer.push(t);
        assert(buf2[0] == buffer[0]);
        assert forall|j: int| 0 <= j < buf2.len() implies (#[trigger] buf2[j]).price != 0
            && buf2[j].date == st->Active_anchor by {
            if j < buffer.len() {
                assert(buf2[j] == buffer[j]);
            } else {
                assert(buf2[j] == t);
            }
        }
        assert forall|j: int| 0 < j < buf2.len() implies (#[trigger] buf2[j]).from@ == buf2[
            j - 1
        ].to@ && !completes(st->Active_dir, buf2[j], from, to) by {
            if j < buffer.len() {
                assert(buf2[j] == buffer[j] && buf2[j - 1] == buffer[j - 1]);
            } else {
                assert(buf2[j] == t && buf2[j - 1] == buffer[j - 1]);
                assert(buffer.last() == buffer[j - 1]);
            }
        }
        assert(state_wf(r.0, from, to));
    }
}

/// A flush out of a well-formed chain state emits a complete chain.
#[verifier::rlimit(100)]
proof fn lemma_flush_is_block(st: ChainState, t: Trip, from: Seq<String>, to: Seq<String>)
    requires
        state_wf(st, from, to),
        st is Active,
        t.price != 0,
        !chain_breaks(st->Active_anchor, st->Active_buffer, t),
        completes(st->Active_dir, t, from, to),
    ensures
        chain_block(st->Active_buffer.push(t), from, to),
{
    let buffer = st->Active_buffer;
    let c = buffer.push(t);
    assert(c.len() >= 2);
    assert(c[0] == buffer[0]);
    assert forall|j: int| 0 <= j < c.len() implies (#[trigger] c[j]).price != 0 && c[j].date == c[
        0
    ].date by {
        if j < buffer.len() {
            assert(c[j] == buffer[j]);
        } else {
            assert(c[j] == t);
        }
    }
    assert forall|j: int| 0 < j < c.len() implies (#[trigger] c[j]).from@ == c[j - 1].to@ by {
        if j < buffer.len() {
            assert(c[j] == buffer[j] && c[j - 1] == buffer[j - 1]);
        } else {
            assert(c[j] == t && c[j - 1] == buffer[j - 1]);
            assert(buffer.last() == buffer[j - 1]);
        }
    }
    assert forall|j: int| 0 < j < c.len() - 1 implies !completes(
        chain_dir_of(c[0], from, to),
        #[trigger] c[j],
        from,
        to,
    ) by {
        assert(c[j] == buffer[j]);
    }
    assert(c.last() == t);
}

/// Whatever a well-formed scan emits is emitted again, unchanged, by a fresh
/// scan of that output: the output is made of direct matches and complete
/// chains, and each replays exactly.
#[verifier::rlimit(100)]
proof fn lemma_rescan(trips: Seq<Trip>, st: ChainState, from: Seq<String>, to: Seq<String>)
    requires
        state_wf(st, from, to),
    ensures
        run(run(trips, st, from, to), ChainState::Idle, from, to) == run(trips, st, from, to),
    decreases trips.len(),
{
    let out = run(trips, st, from, to);
    if trips.len() > 0 {
        let t = trips[0];
        let rest = trips.drop_first();
        let r = step(st, t, from, to);
        lemma_step_wf(st, t, from, to);
        lemma_rescan(rest, r.0, from, to);
        let out2 = run(rest, r.0, from, to);
        assert(out == r.1 + out2);
        if r.1.len() == 0 {
            assert(out =~= out2);
        } else if t.price != 0 && (st is Idle || chain_breaks(
            st->Active_anchor,
            st->Active_buffer,
            t,
        )) && direct_match(t, from, to) {
            assert(r.1 == seq![t]);
            lemma_direct_match_emitted(t, out2, from, to);
            assert(out =~= seq![t] + out2);
        } else {
            let buffer = st->Active_buffer;
            let c = buffer.push(t);
            assert(r.1 == c);
            lemma_flush_is_block(st, t, from, to);
            lemma_chain_block_replay(c, out2, from, to);
            assert(out =~= c + out2);
        }
    }
}

/// Filtering the filter's own output with the same station sets returns it
/// unchanged: emitted journeys are final, neither re-chained nor dropped.
pub proof fn lemma_refilter_idempotent(trips: Seq<Trip>, from: Seq<String>, to: Seq<String>)
    ensures
        station_filter_spec(station_filter_spec(trips, from, to), from, to) == station_filter_spec(
            trips,
            from,
            to,
        ),
{
    lemma_rescan(trips, ChainState::Idle, from, to);
}

/// The filter's output is a subsequence of its input: no leg is invented,
/// and the legs kept stand in the same relative order as they were given.
pub proof fn lemma_filter_subsequence(trips: Seq<Trip>, from: Seq<String>, to: Seq<String>)
    ensures
        is_subseq(station_filter_spec(trips, from, to), trips),
{
    lemma_run_subseq(trips, ChainState::Idle, from, to);
    assert(pending(ChainState::Idle) + trips =~= trips);
}

} // verus!
