//! Laws of the library, each stated over the abstract models that the
//! executable functions' contracts use.
use vstd::prelude::*;
use vstd::arithmetic::div_mod::{
    lemma_add_mod_noop, lemma_mod_add_multiples_vanish, lemma_mod_bound, lemma_small_mod,
};
use crate::passenger::{Passenger, PassengerIds};
use crate::simulator::{LineState, boarded, lemma_add_wf, lemma_boarded_len, lemma_tick_wf};

verus! {

/// Identifiers handed out by a chain of allocations (each call starting from
/// the allocator that the previous one left) are pairwise distinct and
/// strictly increasing in the order of the calls.
pub proof fn lemma_ids_strictly_increase(states: Seq<PassengerIds>, ids: Seq<u32>)
    requires
        states.len() == ids.len() + 1,
        forall|k: int|
            0 <= k < ids.len() ==> {
                &&& (#[trigger] ids[k]) as nat == states[k].next_spec()
                &&& states[k + 1].next_spec() == states[k].next_spec() + 1
            },
    ensures
        forall|i: int, j: int| 0 <= i < j < ids.len() ==> ids[i] < ids[j],
{
    assert forall|k: int| 0 <= k <= ids.len() implies #[trigger] states[k].next_spec()
        == states[0].next_spec() + k by {
        lemma_next_after(states, ids, k);
    }
    assert forall|i: int, j: int| 0 <= i < j < ids.len() implies ids[i] < ids[j] by {
        assert(ids[i] as nat == states[i].next_spec());
        assert(ids[j] as nat == states[j].next_spec());
    }
}

proof fn lemma_next_after(states: Seq<PassengerIds>, ids: Seq<u32>, k: int)
    requires
        states.len() == ids.len() + 1,
        forall|k: int|
            0 <= k < ids.len() ==> {
                &&& (#[trigger] ids[k]) as nat == states[k].next_spec()
                &&& states[k + 1].next_spec() == states[k].next_spec() + 1
            },
        0 <= k <= ids.len(),
    ensures
        states[k].next_spec() == states[0].next_spec() + k,
    decreases k,
{
    if k > 0 {
        lemma_next_after(states, ids, k - 1);
        assert(ids[k - 1] as nat == states[k - 1].next_spec());
    }
}

/// The queue after `es` are enqueued, one after another, onto `q`.
pub open spec fn enqueue_all(q: Seq<Passenger>, es: Seq<Passenger>) -> Seq<Passenger>
    decreases es.len(),
{
    if es.len() == 0 {
        q
    } else {
        enqueue_all(q.push(es[0]), es.drop_first())
    }
}

/// The passengers that `k` dequeues from `q` return, in order; a dequeue
/// from an empty queue returns nothing.
pub open spec fn dequeue_n(q: Seq<Passenger>, k: nat) -> Seq<Passenger>
    decreases k,
{
    if k == 0 || q.len() == 0 {
        Seq::empty()
    } else {
        seq![q[0]] + dequeue_n(q.drop_first(), (k - 1) as nat)
    }
}

/// Enqueuing `e1..ek` onto an empty queue, then dequeuing `k` times, returns
/// `e1..ek` in that order.
pub proof fn lemma_fifo(es: Seq<Passenger>)
    ensures
        dequeue_n(enqueue_all(Seq::empty(), es), es.len()) == es,
{
    lemma_enqueue_all(Seq::empty(), es);
    assert(Seq::<Passenger>::empty() + es =~= es);
    lemma_dequeue_all(es);
}

proof fn lemma_enqueue_all(q: Seq<Passenger>, es: Seq<Passenger>)
    ensures
        enqueue_all(q, es) == q + es,
    decreases es.len(),
{
    if es.len() > 0 {
        lemma_enqueue_all(q.push(es[0]), es.drop_first());
        assert(q.push(es[0]) + es.drop_first() =~= q + es);
    }
}

proof fn lemma_dequeue_all(es: Seq<Passenger>)
    ensures
        dequeue_n(es, es.len()) == es,
    decreases es.len(),
{
    if es.len() > 0 {
        lemma_dequeue_all(es.drop_first());
        assert(seq![es[0]] + es.drop_first() =~= es);
    }
}

/// One operation on a line: a passenger added, or a tick.
pub ghost enum Command {
    Add(Passenger),
    Tick,
}

/// The line after one command.
pub open spec fn step(s: LineState, c: Command) -> LineState {
    match c {
        Command::Add(p) => s.add(p),
        Command::Tick => s.tick(),
    }
}

/// Whether a command is allowed on a line of `n` stations, as the
/// executable operations require.
pub open spec fn command_ok(n: nat, c: Command) -> bool {
    match c {
        Command::Add(p) => p.arrival < n && p.departure < n,
        Command::Tick => n > 0,
    }
}

/// The line after the commands `cs`, in order.
pub open spec fn run(s: LineState, cs: Seq<Command>) -> LineState
    decreases cs.len(),
{
    if cs.len() == 0 {
        s
    } else {
        run(step(s, cs[0]), cs.drop_first())
    }
}

/// The number of riders who leave the train during the commands `cs`.
pub open spec fn alighted_in(s: LineState, cs: Seq<Command>) -> int
    decreases cs.len(),
{
    if cs.len() == 0 {
        0
    } else {
        let here = match cs[0] {
            Command::Add(_) => 0,
            Command::Tick => s.alighting().len() as int,
        };
        here + alighted_in(step(s, cs[0]), cs.drop_first())
    }
}

/// The number of passengers that the commands `cs` add.
pub open spec fn added_in(cs: Seq<Command>) -> int
    decreases cs.len(),
{
    if cs.len() == 0 {
        0
    } else {
        (if cs[0] is Add { 1int } else { 0int }) + added_in(cs.drop_first())
    }
}

/// Over any run of additions and ticks, the riders waiting, the riders
/// aboard and the riders who have alighted together make up the riders the
/// line held at the start plus those added.
pub proof fn lemma_conservation(s: LineState, cs: Seq<Command>)
    requires
        s.wf(),
        forall|k: int| 0 <= k < cs.len() ==> command_ok(s.station_count(), #[trigger] cs[k]),
    ensures
        run(s, cs).wf(),
        run(s, cs).passengers() + alighted_in(s, cs) == s.passengers() + added_in(cs),
    decreases cs.len(),
{
    if cs.len() > 0 {
        assert(command_ok(s.station_count(), cs[0]));
        match cs[0] {
            Command::Add(p) => lemma_add_wf(s, p),
            Command::Tick => lemma_tick_wf(s),
        }
        let rest = cs.drop_first();
        assert forall|k: int| 0 <= k < rest.len() implies command_ok(
            step(s, cs[0]).station_count(),
            #[trigger] rest[k],
        ) by {
            assert(rest[k] == cs[k + 1]);
        }
        lemma_conservation(step(s, cs[0]), rest);
    }
}

/// After `k` ticks on a line with every queue empty, the queues are still
/// empty and the train is `k` stations further on, modulo the line's length.
pub proof fn lemma_ticks_on_empty_line(s: LineState, k: nat)
    requires
        s.wf(),
        s.station_count() > 0,
        s.is_empty(),
    ensures
        s.ticks(k) == (LineState { current: (s.current + k) % (s.station_count() as int), ..s }),
    decreases k,
{
    let n = s.station_count() as int;
    if k == 0 {
        lemma_small_mod(s.current as nat, n as nat);
    } else {
        lemma_ticks_on_empty_line(s, (k - 1) as nat);
        let t = s.ticks((k - 1) as nat);
        let c = t.current;
        assert(0 <= c < n) by {
            lemma_mod_bound(s.current + k - 1, n);
        }
        assert(t.waiting.update(c, Seq::empty()) =~= s.waiting) by {
            assert(s.waiting[c] =~= Seq::<Passenger>::empty());
        }
        assert(t.train.update(c, Seq::empty()) =~= s.train) by {
            assert(s.train[c] =~= Seq::<Passenger>::empty());
        }
        lemma_add_mod_noop(s.current + k - 1, 1, n);
        lemma_add_mod_noop(c, 1, n);
        lemma_small_mod(c as nat, n as nat);
    }
}

/// After as many ticks as the line has stations, a line with every queue
/// empty is back where it started: the train at its station, every queue
/// empty.
pub proof fn lemma_wraparound(s: LineState)
    requires
        s.wf(),
        s.station_count() > 0,
        s.is_empty(),
    ensures
        s.ticks(s.station_count()) == s,
        s.ticks(s.station_count()).is_empty(),
{
    let n = s.station_count() as int;
    lemma_ticks_on_empty_line(s, s.station_count());
    lemma_mod_add_multiples_vanish(s.current, n);
    lemma_small_mod(s.current as nat, n as nat);
}

proof fn lemma_boarded_keeps(t: Seq<Seq<Passenger>>, q: Seq<Passenger>, i: int, d: int, m: int)
    requires
        0 <= i <= q.len(),
        forall|j: int| 0 <= j < q.len() ==> (#[trigger] q[j]).departure < t.len(),
        0 <= d < t.len(),
        0 <= m < t[d].len(),
    ensures
        m < boarded(t, q, i)[d].len(),
        boarded(t, q, i)[d][m] == t[d][m],
    decreases i,
{
    if i > 0 {
        lemma_boarded_keeps(t, q, i - 1, d, m);
        lemma_boarded_len(t, q, i - 1);
    }
}

proof fn lemma_boarded_has(t: Seq<Seq<Passenger>>, q: Seq<Passenger>, i: int, j: int)
    requires
        0 <= j < i <= q.len(),
        forall|k: int| 0 <= k < q.len() ==> (#[trigger] q[k]).departure < t.len(),
    ensures
        boarded(t, q, i)[q[j].departure as int].contains(q[j]),
    decreases i,
{
    lemma_boarded_len(t, q, i - 1);
    let u = boarded(t, q, i - 1);
    let d = q[j].departure as int;
    if j == i - 1 {
        assert(boarded(t, q, i)[d].last() == q[j]);
    } else {
        lemma_boarded_has(t, q, i - 1, j);
        let m = choose|m: int| 0 <= m < u[d].len() && u[d][m] == q[j];
        lemma_boarded_keeps(u, seq![q[i - 1]], 1, d, m);
        assert(boarded(u, seq![q[i - 1]], 1) == boarded(t, q, i)) by {
            assert(boarded(u, seq![q[i - 1]], 0) == u);
        }
        assert(boarded(t, q, i)[d][m] == q[j]);
    }
}

/// A tick keeps every rider aboard who is bound for another station than
/// the current one.
proof fn lemma_tick_keeps(s: LineState, d: int, p: Passenger)
    requires
        s.wf(),
        s.station_count() > 0,
        0 <= d < s.station_count(),
        d != s.current,
        s.train[d].contains(p),
    ensures
        s.tick().train[d].contains(p),
{
    let c = s.current;
    let q = s.waiting[c];
    let t = s.train.update(c, Seq::empty());
    assert forall|j: int| 0 <= j < q.len() implies (#[trigger] q[j]).departure < t.len() by {
        assert(s.waiting[c][j].departure < s.station_count());
    }
    let m = choose|m: int| 0 <= m < s.train[d].len() && s.train[d][m] == p;
    lemma_boarded_keeps(t, q, q.len() as int, d, m);
}

/// Ticks keep the line well formed and move the train one station each.
pub proof fn lemma_ticks(s: LineState, k: nat)
    requires
        s.wf(),
        s.station_count() > 0,
    ensures
        s.ticks(k).wf(),
        s.ticks(k).names == s.names,
        s.ticks(k).current == (s.current + k) % (s.station_count() as int),
    decreases k,
{
    let n = s.station_count() as int;
    if k == 0 {
        lemma_small_mod(s.current as nat, n as nat);
    } else {
        lemma_ticks(s, (k - 1) as nat);
        let t = s.ticks((k - 1) as nat);
        lemma_tick_wf(t);
        let c = t.current;
        lemma_add_mod_noop(s.current + k - 1, 1, n);
        lemma_add_mod_noop(c, 1, n);
        lemma_small_mod(c as nat, n as nat);
    }
}

proof fn lemma_aboard_until_back(s: LineState, d: int, p: Passenger, k: nat)
    requires
        s.wf(),
        s.station_count() > 0,
        0 <= d < s.station_count(),
        s.current == (d + 1) % (s.station_count() as int),
        s.train[d].contains(p),
        k < s.station_count(),
    ensures
        s.ticks(k).train[d].contains(p),
    decreases k,
{
    if k > 0 {
        let n = s.station_count() as int;
        lemma_aboard_until_back(s, d, p, (k - 1) as nat);
        lemma_ticks(s, (k - 1) as nat);
        let t = s.ticks((k - 1) as nat);
        assert(t.current != d) by {
            lemma_add_mod_noop(d + 1, k - 1, n);
            lemma_small_mod((k - 1) as nat, n as nat);
            lemma_add_mod_noop(d, k as int, n);
            lemma_small_mod(k as nat, n as nat);
            lemma_small_mod(d as nat, n as nat);
            if (d + k) < n {
                lemma_small_mod((d + k) as nat, n as nat);
            } else {
                lemma_mod_add_multiples_vanish(d + k - n, n);
                lemma_small_mod((d + k - n) as nat, n as nat);
            }
        }
        lemma_tick_keeps(t, d, p);
    }
}

/// A rider waiting at the current station and bound for that same station
/// does not leave in this tick: they board, and they leave when the train
/// next stands at that station again, one full round later.
pub proof fn lemma_same_station_trip(s: LineState, j: int)
    requires
        s.wf(),
        s.station_count() > 0,
        0 <= j < s.waiting[s.current].len(),
        s.waiting[s.current][j].departure == s.current,
    ensures
        s.tick().train[s.current].contains(s.waiting[s.current][j]),
        s.tick().ticks((s.station_count() - 1) as nat).current == s.current,
        s.tick().ticks((s.station_count() - 1) as nat).alighting().contains(
            s.waiting[s.current][j],
        ),
{
    let c = s.current;
    let n = s.station_count() as int;
    let q = s.waiting[c];
    let t = s.train.update(c, Seq::empty());
    assert forall|k: int| 0 <= k < q.len() implies (#[trigger] q[k]).departure < t.len() by {
        assert(s.waiting[c][k].departure < s.station_count());
    }
    lemma_boarded_has(t, q, q.len() as int, j);
    lemma_tick_wf(s);
    lemma_aboard_until_back(s.tick(), c, q[j], (n - 1) as nat);
    lemma_ticks(s.tick(), (n - 1) as nat);
    lemma_add_mod_noop(c + 1, n - 1, n);
    lemma_add_mod_noop(c, 1, n);
    lemma_small_mod(c as nat, n as nat);
    lemma_mod_add_multiples_vanish(c, n);
    if n > 1 {
        lemma_small_mod(1, n as nat);
        lemma_small_mod((n - 1) as nat, n as nat);
    }
}

} // verus!
