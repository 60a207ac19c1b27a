//! The line itself: stations, waiting queues, the train's destination
//! buckets, and the tick that moves riders between them.
use vstd::prelude::*;
use crate::text::{decimal, push_decimal};
use crate::passenger::{Passenger, PassengerIds};
use crate::passenger_queue::{PassengerQueue, queue_text};

verus! {

/// The abstract state of a line.
pub ghost struct LineState {
    /// Display name of each station, indexed by station.
    pub names: Seq<Seq<char>>,
    /// The station the train stands at.
    pub current: int,
    /// Riders waiting at each station, in order of arrival.
    pub waiting: Seq<Seq<Passenger>>,
    /// Riders aboard, bucketed by the station where they alight.
    pub train: Seq<Seq<Passenger>>,
}

impl LineState {
    pub open spec fn station_count(self) -> nat {
        self.names.len()
    }

    /// One queue of each kind per station, the train at a station (or at 0 on
    /// a line without stations), every waiting rider at their boarding station
    /// with a destination on the line, every rider aboard in the bucket of
    /// their destination.
    pub open spec fn wf(self) -> bool {
        let n = self.station_count();
        &&& self.waiting.len() == n
        &&& self.train.len() == n
        &&& (if n == 0 { self.current == 0 } else { 0 <= self.current < n })
        &&& forall|s: int, j: int|
            0 <= s < n && 0 <= j < self.waiting[s].len() ==> {
                &&& (#[trigger] self.waiting[s][j]).arrival == s
                &&& self.waiting[s][j].departure < n
            }
        &&& forall|d: int, j: int|
            0 <= d < n && 0 <= j < self.train[d].len() ==> (#[trigger] self.train[d][j]).departure
                == d
    }

    /// The state after `p` starts waiting at its boarding station.
    pub open spec fn add(self, p: Passenger) -> LineState {
        LineState {
            waiting: self.waiting.update(
                p.arrival as int,
                self.waiting[p.arrival as int].push(p),
            ),
            ..self
        }
    }

    /// Riders who leave the train in a tick from this state, in order.
    pub open spec fn alighting(self) -> Seq<Passenger> {
        self.train[self.current]
    }

    /// The state after a tick: the bucket of the current station empties,
    /// then its waiting riders board, then the train moves on one station.
    pub open spec fn tick(self) -> LineState {
        let c = self.current;
        let q = self.waiting[c];
        LineState {
            names: self.names,
            current: (c + 1) % (self.station_count() as int),
            waiting: self.waiting.update(c, Seq::empty()),
            train: boarded(self.train.update(c, Seq::empty()), q, q.len() as int),
        }
    }

    /// The state after `k` ticks.
    pub open spec fn ticks(self, k: nat) -> LineState
        decreases k,
    {
        if k == 0 {
            self
        } else {
            self.ticks((k - 1) as nat).tick()
        }
    }

    /// The number of riders waiting or aboard.
    pub open spec fn passengers(self) -> int {
        total(self.waiting) + total(self.train)
    }

    /// Whether every queue of the line is empty.
    pub open spec fn is_empty(self) -> bool {
        &&& forall|s: int| 0 <= s < self.waiting.len() ==> #[trigger] self.waiting[s].len() == 0
        &&& forall|d: int| 0 <= d < self.train.len() ==> #[trigger] self.train[d].len() == 0
    }
}

/// The buckets `t` after the first `i` riders of `q` boarded in turn, each
/// at the tail of the bucket of their destination.
pub open spec fn boarded(t: Seq<Seq<Passenger>>, q: Seq<Passenger>, i: int) -> Seq<Seq<Passenger>>
    decreases i,
{
    if i <= 0 {
        t
    } else {
        let u = boarded(t, q, i - 1);
        let p = q[i - 1];
        u.update(p.departure as int, u[p.departure as int].push(p))
    }
}

/// The number of riders in all of `qs`.
pub open spec fn total(qs: Seq<Seq<Passenger>>) -> int
    decreases qs.len(),
{
    if qs.len() == 0 {
        0
    } else {
        total(qs.drop_last()) + qs.last().len()
    }
}

/// The log line written when `p` leaves the train at the station `name`.
pub open spec fn alight_line(p: Passenger, name: Seq<char>) -> Seq<char> {
    "Passenger "@ + decimal(p.id as nat) + " left the train at station "@ + name + "\n"@
}

/// The marker column of a station's line.
pub open spec fn marker(here: bool) -> Seq<char> {
    if here {
        "TRAIN: "@
    } else {
        "       "@
    }
}

/// The riders aboard, bucket by bucket.
pub open spec fn cars_text(t: Seq<Seq<Passenger>>) -> Seq<char>
    decreases t.len(),
{
    if t.len() == 0 {
        Seq::empty()
    } else {
        cars_text(t.drop_last()) + queue_text(t.last())
    }
}

/// The snapshot line of station `i`.
pub open spec fn station_line(s: LineState, i: int) -> Seq<char> {
    marker(s.current == i) + "["@ + decimal(i as nat) + "] "@ + s.names[i] + " {"@ + queue_text(
        s.waiting[i],
    ) + "}\n"@
}

/// The snapshot lines of the first `k` stations.
pub open spec fn stations_text(s: LineState, k: int) -> Seq<char>
    decreases k,
{
    if k <= 0 {
        Seq::empty()
    } else {
        stations_text(s, k - 1) + station_line(s, k - 1)
    }
}

/// The full snapshot of a line.
pub open spec fn render(s: LineState) -> Seq<char> {
    "Passengers on train: {"@ + cars_text(s.train) + "}\n"@ + stations_text(
        s,
        s.station_count() as int,
    )
}

/// The log line for `p` leaving the train at the station `name`.
fn alight_text(p: &Passenger, name: &str) -> (r: String)
    ensures
        r@ == alight_line(*p, name@),
{
    let mut line = String::from_str("Passenger ");
    push_decimal(&mut line, p.id as u64);
    line.append(" left the train at station ");
    line.append(name);
    line.append("\n");
    assert(line@ =~= alight_line(*p, name@));
    line
}

/// Boarding keeps one bucket per station.
pub proof fn lemma_boarded_len(t: Seq<Seq<Passenger>>, q: Seq<Passenger>, i: int)
    requires
        0 <= i <= q.len(),
        forall|j: int| 0 <= j < q.len() ==> (#[trigger] q[j]).departure < t.len(),
    ensures
        boarded(t, q, i).len() == t.len(),
    decreases i,
{
    if i > 0 {
        lemma_boarded_len(t, q, i - 1);
    }
}

/// Boarding puts each rider into the bucket of their destination, and the
/// number of riders aboard grows by one per rider boarded.
pub proof fn lemma_boarded(t: Seq<Seq<Passenger>>, q: Seq<Passenger>, i: int)
    requires
        0 <= i <= q.len(),
        forall|j: int| 0 <= j < q.len() ==> (#[trigger] q[j]).departure < t.len(),
        forall|d: int, j: int|
            0 <= d < t.len() && 0 <= j < t[d].len() ==> (#[trigger] t[d][j]).departure == d,
    ensures
        boarded(t, q, i).len() == t.len(),
        total(boarded(t, q, i)) == total(t) + i,
        forall|d: int, j: int|
            0 <= d < t.len() && 0 <= j < boarded(t, q, i)[d].len() ==> (#[trigger] boarded(
                t,
                q,
                i,
            )[d][j]).departure == d,
    decreases i,
{
    if i > 0 {
        lemma_boarded(t, q, i - 1);
        let u = boarded(t, q, i - 1);
        let p = q[i - 1];
        let d0 = p.departure as int;
        lemma_total_update(u, d0, u[d0].push(p));
        let b = boarded(t, q, i);
        assert forall|d: int, j: int|
            0 <= d < t.len() && 0 <= j < b[d].len() implies (#[trigger] b[d][j]).departure == d by {
            if d == d0 && j == u[d0].len() {
            } else {
                assert(b[d][j] == u[d][j]);
            }
        }
    }
}

/// Replacing one queue changes the count by the difference of lengths.
pub proof fn lemma_total_update(qs: Seq<Seq<Passenger>>, i: int, x: Seq<Passenger>)
    requires
        0 <= i < qs.len(),
    ensures
        total(qs.update(i, x)) == total(qs) - qs[i].len() + x.len(),
    decreases qs.len(),
{
    let u = qs.update(i, x);
    if i == qs.len() - 1 {
        assert(u.drop_last() =~= qs.drop_last());
    } else {
        assert(u.drop_last() =~= qs.drop_last().update(i, x));
        lemma_total_update(qs.drop_last(), i, x);
    }
}

/// A tick keeps a well-formed line well formed, and the riders it holds
/// afterwards, with those who left, are the riders it held before.
pub proof fn lemma_tick_wf(s: LineState)
    requires
        s.wf(),
        s.station_count() > 0,
    ensures
        s.tick().wf(),
        s.tick().passengers() + s.alighting().len() == s.passengers(),
{
    let c = s.current;
    let q = s.waiting[c];
    let t = s.train.update(c, Seq::empty());
    let n = s.station_count();
    assert forall|j: int| 0 <= j < q.len() implies (#[trigger] q[j]).departure < t.len() by {
        assert(s.waiting[c][j].departure < n);
    }
    assert forall|d: int, j: int|
        0 <= d < t.len() && 0 <= j < t[d].len() implies (#[trigger] t[d][j]).departure == d by {
        assert(t[d][j] == s.train[d][j]);
    }
    lemma_boarded(t, q, q.len() as int);
    lemma_total_update(s.train, c, Seq::empty());
    lemma_total_update(s.waiting, c, Seq::empty());
    let w = s.tick().waiting;
    assert forall|st: int, j: int| 0 <= st < n && 0 <= j < w[st].len() implies {
        &&& (#[trigger] w[st][j]).arrival == st
        &&& w[st][j].departure < n
    } by {
        assert(w[st][j] == s.waiting[st][j]);
    }
}

/// Adding a rider within the line keeps it well formed, and adds one rider.
pub proof fn lemma_add_wf(s: LineState, p: Passenger)
    requires
        s.wf(),
        p.arrival < s.station_count(),
        p.departure < s.station_count(),
    ensures
        s.add(p).wf(),
        s.add(p).passengers() == s.passengers() + 1,
{
    let a = p.arrival as int;
    let w = s.add(p).waiting;
    lemma_total_update(s.waiting, a, s.waiting[a].push(p));
    assert forall|st: int, j: int| 0 <= st < s.station_count() && 0 <= j < w[st].len() implies {
        &&& (#[trigger] w[st][j]).arrival == st
        &&& w[st][j].departure < s.station_count()
    } by {
        if st != a || j < s.waiting[a].len() {
            assert(w[st][j] == s.waiting[st][j]);
        }
    }
}

/// A circular line with its stations, queues and train.
pub struct Simulator {
    current_station: usize,
    station_names: Vec<String>,
    output_file: String,
    waiting: Vec<PassengerQueue>,
    train: Vec<PassengerQueue>,
}

impl View for Simulator {
    type V = LineState;

    closed spec fn view(&self) -> LineState {
        LineState {
            names: self.station_names@.map_values(|n: String| n@),
            current: self.current_station as int,
            waiting: self.waiting@.map_values(|q: PassengerQueue| q@),
            train: self.train@.map_values(|q: PassengerQueue| q@),
        }
    }
}

impl Simulator {
    pub open spec fn wf(&self) -> bool {
        self@.wf()
    }

    /// The name of the log that alight events are appended to.
    pub closed spec fn output_file_spec(&self) -> Seq<char> {
        self.output_file@
    }

    /// A line whose stations are `stations`, in index order, with every
    /// queue empty and the train at station 0.
    pub fn new(stations: Vec<String>, output_file: &str) -> (r: Simulator)
        ensures
            r.wf(),
            r@.names == stations@.map_values(|n: String| n@),
            r@.current == 0,
            r@.is_empty(),
            r.output_file_spec() == output_file@,
    {
        let n = stations.len();
        let mut waiting: Vec<PassengerQueue> = Vec::new();
        let mut train: Vec<PassengerQueue> = Vec::new();
        let mut i: usize = 0;
        while i < n
            invariant
                i <= n,
                waiting@.len() == i,
                train@.len() == i,
                forall|s: int| 0 <= s < i ==> (#[trigger] waiting@[s])@.len() == 0,
                forall|s: int| 0 <= s < i ==> (#[trigger] train@[s])@.len() == 0,
            decreases n - i,
        {
            waiting.push(PassengerQueue::new());
            train.push(PassengerQueue::new());
            i = i + 1;
        }
        Simulator {
            current_station: 0,
            station_names: stations,
            output_file: String::from_str(output_file),
            waiting,
            train,
        }
    }

    /// Creates a passenger from `arrival` to `departure` with the next
    /// identifier of `ids`, and puts them at the tail of the waiting queue of
    /// `arrival`. Returns the new passenger.
    pub fn add_passenger(&mut self, ids: &mut PassengerIds, arrival: u32, departure: u32) -> (p:
        Passenger)
        requires
            old(self).wf(),
            old(ids).wf(),
            old(ids).can_allocate(),
            arrival < old(self)@.station_count(),
            departure < old(self)@.station_count(),
        ensures
            final(self).wf(),
            final(ids).wf(),
            p.id as nat == old(ids).next_spec(),
            final(ids).next_spec() == old(ids).next_spec() + 1,
            p.arrival == arrival,
            p.departure == departure,
            final(self)@ == old(self)@.add(p),
            final(self).output_file_spec() == old(self).output_file_spec(),
    {
        let p = Passenger::new(ids, arrival, departure);
        let ghost s0 = self@;
        let ghost stops = self.waiting@;
        self.waiting[arrival as usize].enqueue(p);
        proof {
            let a = arrival as int;
            assert forall|st: int| 0 <= st < s0.station_count() implies #[trigger] self@.waiting[st]
                == s0.add(p).waiting[st] by {
                assert(self@.waiting[st] == self.waiting@[st]@);
                assert(stops[st]@ == s0.waiting[st]);
                if st != a {
                    assert(self.waiting@[st] == stops[st]);
                }
            }
            assert(self@.waiting =~= s0.add(p).waiting);
            let w = self@.waiting;
            assert forall|st: int, j: int|
                0 <= st < s0.station_count() && 0 <= j < w[st].len() implies {
                &&& (#[trigger] w[st][j]).arrival == st
                &&& w[st][j].departure < s0.station_count()
            } by {
                if st != a || j < s0.waiting[a].len() {
                    assert(w[st][j] == s0.waiting[st][j]);
                }
            }
        }
        p
    }

    /// One tick: the riders bound for the current station leave the train,
    /// each with a log line, in the order they boarded; then the riders
    /// waiting there board, each into the bucket of their destination; then
    /// the train moves on to the next station, from the last back to 0.
    /// Returns the log lines, one per rider who left.
    pub fn move_train(&mut self) -> (log: Vec<String>)
        requires
            old(self).wf(),
            old(self)@.station_count() > 0,
        ensures
            final(self).wf(),
            final(self)@ == old(self)@.tick(),
            final(self).output_file_spec() == old(self).output_file_spec(),
            log@.len() == old(self)@.alighting().len(),
            forall|k: int|
                0 <= k < log@.len() ==> (#[trigger] log@[k])@ == alight_line(
                    old(self)@.alighting()[k],
                    old(self)@.names[old(self)@.current],
                ),
    {
        let ghost s0 = self@;
        let c = self.current_station;
        let n = self.station_names.len();
        let ghost car = s0.train[c as int];
        let mut log: Vec<String> = Vec::new();
        assert(car.skip(0) =~= car);
        assert(self@.train =~= s0.train.update(c as int, car.skip(0)));
        while self.train[c].size() > 0
            invariant
                s0 == old(self)@,
                s0.wf(),
                c == s0.current,
                n == s0.station_count(),
                0 <= c < n,
                self.station_names == old(self).station_names,
                self.output_file == old(self).output_file,
                self.current_station == c,
                self.waiting == old(self).waiting,
                self@.train.len() == n,
                log@.len() <= car.len(),
                self@.train == s0.train.update(c as int, car.skip(log@.len() as int)),
                forall|k: int|
                    0 <= k < log@.len() ==> (#[trigger] log@[k])@ == alight_line(
                        car[k],
                        s0.names[c as int],
                    ),
            decreases self@.train[c as int].len(),
        {
            let ghost k = log@.len() as int;
            let ghost cars = self.train@;
            let ghost tr = self@.train;
            assert(self.train@[c as int]@ == self@.train[c as int]);
            if let Some(p) = self.train[c].dequeue() {
                let line = alight_text(&p, self.station_names[c].as_str());
                log.push(line);
                proof {
                    assert(car.skip(k).drop_first() =~= car.skip(k + 1));
                    assert(self.train@[c as int]@ == car.skip(k + 1));
                    assert forall|d: int| 0 <= d < n implies #[trigger] self@.train[d] == s0.train.update(
                        c as int,
                        car.skip(k + 1),
                    )[d] by {
                        assert(self@.train[d] == self.train@[d]@);
                        if d != c {
                            assert(self.train@[d] == cars[d]);
                            assert(cars[d]@ == tr[d]);
                        }
                    }
                    assert(self@.train =~= s0.train.update(c as int, car.skip(k + 1)));
                }
            }
        }
        proof {
            assert(self@.train[c as int] == self.train@[c as int]@);
            assert(log@.len() == car.len());
        }
        let ghost q = s0.waiting[c as int];
        let ghost base = self@.train;
        assert(car.skip(car.len() as int) =~= Seq::<Passenger>::empty());
        assert(base =~= s0.train.update(c as int, Seq::empty()));
        let ghost mut i: int = 0;
        assert(q.skip(0) =~= q);
        assert(self@.waiting =~= s0.waiting.update(c as int, q.skip(0)));
        while self.waiting[c].size() > 0
            invariant
                s0.wf(),
                c == s0.current,
                n == s0.station_count(),
                0 <= c < n,
                self.station_names == old(self).station_names,
                self.output_file == old(self).output_file,
                self.current_station == c,
                self@.train.len() == n,
                self@.waiting.len() == n,
                0 <= i <= q.len(),
                q == s0.waiting[c as int],
                base.len() == n,
                self@.waiting == s0.waiting.update(c as int, q.skip(i)),
                self@.train == boarded(base, q, i),
            decreases q.len() - i,
        {
            assert(self@.waiting[c as int] == self.waiting@[c as int]@);
            let ghost stops = self.waiting@;
            let ghost ws = self@.waiting;
            if let Some(p) = self.waiting[c].dequeue() {
                proof {
                    assert(q.skip(i).len() > 0);
                    assert(q.skip(i)[0] == q[i]);
                    lemma_boarded_len(base, q, i);
                    assert(p == q[i]);
                    assert(p.departure < n);
                }
                let d = p.departure as usize;
                self.train[d].enqueue(p);
                proof {
                    i = i + 1;
                    assert(q.skip(i - 1).drop_first() =~= q.skip(i));
                    assert forall|st: int| 0 <= st < n implies #[trigger] self@.waiting[st]
                        == s0.waiting.update(c as int, q.skip(i))[st] by {
                        assert(self@.waiting[st] == self.waiting@[st]@);
                        if st != c {
                            assert(self.waiting@[st] == stops[st]);
                            assert(stops[st]@ == ws[st]);
                        }
                    }
                    assert(self@.waiting =~= s0.waiting.update(c as int, q.skip(i)));
                    assert(self@.train =~= boarded(base, q, i));
                }
            }
        }
        proof {
            assert(self@.waiting[c as int] == self.waiting@[c as int]@);
            assert(q.skip(i).len() == 0);
            assert(q.skip(i) =~= Seq::<Passenger>::empty());
            assert(self@.waiting =~= s0.waiting.update(c as int, Seq::empty()));
            lemma_tick_wf(s0);
        }
        self.current_station = (c + 1) % n;
        log
    }

    /// The snapshot of the line: the riders aboard, bucket by bucket, then
    /// one line per station with the train's marker, the index, the name
    /// and the waiting riders.
    pub fn to_text(&self) -> (r: String)
        requires
            self.wf(),
        ensures
            r@ == render(self@),
    {
        let n = self.station_names.len();
        let mut out = String::from_str("Passengers on train: {");
        let mut d: usize = 0;
        assert(self@.train.take(0) =~= Seq::<Seq<Passenger>>::empty());
        while d < n
            invariant
                self.wf(),
                n == self@.station_count(),
                d <= n,
                out@ == "Passengers on train: {"@ + cars_text(self@.train.take(d as int)),
            decreases n - d,
        {
            self.train[d].write_text(&mut out);
            proof {
                let t = self@.train.take(d + 1);
                assert(t.drop_last() =~= self@.train.take(d as int));
                assert(t.last() == self@.train[d as int]);
                assert(self@.train[d as int] == self.train@[d as int]@);
            }
            d = d + 1;
        }
        assert(self@.train.take(n as int) =~= self@.train);
        out.append("}\n");
        let ghost head = out@;
        let mut i: usize = 0;
        while i < n
            invariant
                self.wf(),
                n == self@.station_count(),
                i <= n,
                head == "Passengers on train: {"@ + cars_text(self@.train) + "}\n"@,
                out@ == head + stations_text(self@, i as int),
            decreases n - i,
        {
            self.write_station_line(i, &mut out);
            proof {
                assert(out@ =~= head + stations_text(self@, i + 1));
            }
            i = i + 1;
        }
        out
    }

    /// Appends the snapshot line of station `i` to `out`.
    fn write_station_line(&self, i: usize, out: &mut String)
        requires
            self.wf(),
            i < self@.station_count(),
        ensures
            final(out)@ == old(out)@ + station_line(self@, i as int),
    {
        let mut line = if i == self.current_station {
            String::from_str("TRAIN: ")
        } else {
            String::from_str("       ")
        };
        line.append("[");
        push_decimal(&mut line, i as u64);
        line.append("] ");
        line.append(self.station_names[i].as_str());
        line.append(" {");
        self.waiting[i].write_text(&mut line);
        line.append("}\n");
        proof {
            assert(self@.waiting[i as int] == self.waiting@[i as int]@);
            assert(self@.names[i as int] == self.station_names@[i as int]@);
            assert(line@ =~= station_line(self@, i as int));
        }
        out.append(line.as_str());
    }

    /// The riders waiting at `station`.
    pub fn waiting_at(&self, station: usize) -> (r: &PassengerQueue)
        requires
            self.wf(),
            station < self@.station_count(),
        ensures
            r@ == self@.waiting[station as int],
    {
        &self.waiting[station]
    }

    /// The riders aboard who alight at `destination`.
    pub fn train_car(&self, destination: usize) -> (r: &PassengerQueue)
        requires
            self.wf(),
            destination < self@.station_count(),
        ensures
            r@ == self@.train[destination as int],
    {
        &self.train[destination]
    }

    /// The number of stations.
    pub fn station_count(&self) -> (r: usize)
        ensures
            r == self@.station_count(),
    {
        self.station_names.len()
    }

    /// The station the train stands at.
    pub fn current_station(&self) -> (r: usize)
        ensures
            r == self@.current,
    {
        self.current_station
    }

    /// The name of the log that alight events are appended to.
    pub fn output_file(&self) -> (r: &str)
        ensures
            r@ == self.output_file_spec(),
    {
        self.output_file.as_str()
    }
}

} // verus!
