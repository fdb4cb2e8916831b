use vstd::prelude::*;
use crate::event::events_wf;
use crate::event::Actor;
use crate::event::Event;
use crate::event::EventStore;

verus! {

/// Event `j` of row `i`.
pub open spec fn event_at(rows: Seq<(Actor, Seq<Event>)>, i: int, j: int) -> Event {
    rows[i].1[j]
}

/// `t` is where the time axis begins: the earliest start of any event, but
/// never later than the origin.
pub open spec fn is_first_time(rows: Seq<(Actor, Seq<Event>)>, t: int) -> bool {
    &&& t <= 0
    &&& forall|i: int, j: int|
        0 <= i < rows.len() && 0 <= j < rows[i].1.len() ==> t <= (#[trigger] event_at(
            rows,
            i,
            j,
        )).spec_start()
    &&& (t == 0 || exists|i: int, j: int|
        0 <= i < rows.len() && 0 <= j < rows[i].1.len() && (#[trigger] event_at(
            rows,
            i,
            j,
        )).spec_start() == t)
}

/// Whether some event has an end.
pub open spec fn some_end(rows: Seq<(Actor, Seq<Event>)>) -> bool {
    exists|i: int, j: int|
        0 <= i < rows.len() && 0 <= j < rows[i].1.len() && (#[trigger] event_at(
            rows,
            i,
            j,
        )).spec_end().is_some()
}

/// `t` is where the events end: the latest end of any event that has one, and
/// the origin where none has.
pub open spec fn is_last_time(rows: Seq<(Actor, Seq<Event>)>, t: int) -> bool {
    &&& forall|i: int, j: int|
        0 <= i < rows.len() && 0 <= j < rows[i].1.len() ==> match (#[trigger] event_at(
            rows,
            i,
            j,
        )).spec_end() {
            Some(end) => end <= t,
            None => true,
        }
    &&& if some_end(rows) {
        exists|i: int, j: int|
            0 <= i < rows.len() && 0 <= j < rows[i].1.len() && (#[trigger] event_at(
                rows,
                i,
                j,
            )).spec_end() == Some(t)
    } else {
        t == 0
    }
}

/// Where the time axis begins.
pub fn first_event_time(store: &EventStore) -> (t: i64)
    ensures
        is_first_time(store@, t as int),
{
    let mut t: i64 = 0;
    let n: usize = store.actor_count();
    let mut i: usize = 0;
    while i < n
        invariant
            i <= n,
            n == store@.len(),
            is_first_time(store@.take(i as int), t as int),
        decreases n - i,
    {
        let (_, events) = store.row(i);
        let ghost rows = store@.take(i as int);
        let ghost grown = store@.take(i + 1);
        let ghost t0 = t;
        let mut j: usize = 0;
        while j < events.len()
            invariant
                j <= events@.len(),
                i < n,
                n == store@.len(),
                events@ == store@[i as int].1,
                rows == store@.take(i as int),
                is_first_time(rows, t0 as int),
                t <= t0,
                forall|k: int| 0 <= k < j ==> t <= (#[trigger] events@[k]).spec_start(),
                t == t0 || exists|k: int| 0 <= k < j && (#[trigger] events@[k]).spec_start() == t,
            decreases events@.len() - j,
        {
            let s: i64 = events[j].start_time();
            if s < t {
                t = s;
            }
            j += 1;
        }
        proof {
            assert forall|a: int, b: int|
                0 <= a < grown.len() && 0 <= b < grown[a].1.len() implies t <= (#[trigger] event_at(
                grown,
                a,
                b,
            )).spec_start() by {
                if a < i {
                    assert(event_at(grown, a, b) == event_at(rows, a, b));
                } else {
                    assert(event_at(grown, a, b) == events@[b]);
                }
            }
            if t != 0 {
                if t == t0 {
                    let (a, b) = choose|a: int, b: int|
                        0 <= a < rows.len() && 0 <= b < rows[a].1.len() && (#[trigger] event_at(
                            rows,
                            a,
                            b,
                        )).spec_start() == t;
                    assert(event_at(grown, a, b).spec_start() == t);
                } else {
                    let k = choose|k: int|
                        0 <= k < j && (#[trigger] events@[k]).spec_start() == t;
                    assert(event_at(grown, i as int, k).spec_start() == t);
                }
            }
        }
        i += 1;
    }
    proof {
        assert(store@.take(i as int) =~= store@);
    }
    t
}

/// Where the events end.
pub fn last_event_time(store: &EventStore) -> (t: i64)
    requires
        store.wf(),
    ensures
        is_last_time(store@, t as int),
{
    let mut t: i64 = 0;
    let mut found: bool = false;
    let n: usize = store.actor_count();
    let mut i: usize = 0;
    while i < n
        invariant
            i <= n,
            n == store@.len(),
            store.wf(),
            found == some_end(store@.take(i as int)),
            is_last_time(store@.take(i as int), t as int),
        decreases n - i,
    {
        let (_, events) = store.row(i);
        let ghost rows = store@.take(i as int);
        let ghost grown = store@.take(i + 1);
        let ghost t0 = t;
        let ghost found0 = found;
        assert(events_wf(store@[i as int].1));
        let mut j: usize = 0;
        while j < events.len()
            invariant
                j <= events@.len(),
                events_wf(events@),
                is_last_time(rows, t0 as int),
                found0 == some_end(rows),
                found0 ==> found && t0 <= t,
                !found ==> t == 0,
                forall|k: int|
                    0 <= k < j ==> match (#[trigger] events@[k]).spec_end() {
                        Some(end) => found && end <= t,
                        None => true,
                    },
                found ==> (found0 && t == t0) || exists|k: int|
                    0 <= k < j && (#[trigger] events@[k]).spec_end() == Some(t as int),
            decreases events@.len() - j,
        {
            match events[j].end_time() {
                Some(end) => {
                    if !found || end > t {
                        t = end;
                    }
                    found = true;
                },
                None => {},
            }
            j += 1;
        }
        proof {
            assert forall|a: int, b: int|
                0 <= a < grown.len() && 0 <= b < grown[a].1.len() implies match (#[trigger] event_at(
                grown,
                a,
                b,
            )).spec_end() {
                Some(end) => found && end <= t,
                None => true,
            } by {
                if a < i {
                    assert(event_at(grown, a, b) == event_at(rows, a, b));
                } else {
                    assert(event_at(grown, a, b) == events@[b]);
                }
            }
            if found {
                if found0 && t == t0 {
                    let (a, b) = choose|a: int, b: int|
                        0 <= a < rows.len() && 0 <= b < rows[a].1.len() && (#[trigger] event_at(
                            rows,
                            a,
                            b,
                        )).spec_end() == Some(t as int);
                    assert(event_at(grown, a, b).spec_end() == Some(t as int));
                } else {
                    let k = choose|k: int|
                        0 <= k < j && (#[trigger] events@[k]).spec_end() == Some(t as int);
                    assert(event_at(grown, i as int, k).spec_end() == Some(t as int));
                }
                assert(some_end(grown));
            } else {
                assert(!some_end(grown));
            }
        }
        i += 1;
    }
    proof {
        assert(store@.take(i as int) =~= store@);
    }
    t
}

/// The time axis never ends before it begins: an event that has an end
/// starts no later than it ends.
pub proof fn lemma_bounds_ordered(rows: Seq<(Actor, Seq<Event>)>, first: int, last: int)
    requires
        is_first_time(rows, first),
        is_last_time(rows, last),
    ensures
        first <= last,
{
    if some_end(rows) {
        let (i, j) = choose|i: int, j: int|
            0 <= i < rows.len() && 0 <= j < rows[i].1.len() && (#[trigger] event_at(
                rows,
                i,
                j,
            )).spec_end() == Some(last);
        assert(first <= event_at(rows, i, j).spec_start());
    }
}

/// Two sets of rows hold the same times: the same number of actors, and for
/// each actor events of the same kind, start and duration.
pub open spec fn same_times(a: Seq<(Actor, Seq<Event>)>, b: Seq<(Actor, Seq<Event>)>) -> bool {
    &&& a.len() == b.len()
    &&& forall|i: int| 0 <= i < a.len() ==> (#[trigger] a[i]).1.len() == b[i].1.len()
    &&& forall|i: int, j: int|
        0 <= i < a.len() && 0 <= j < a[i].1.len() ==> (#[trigger] event_at(a, i, j)).kind
            == event_at(b, i, j).kind
}

/// Where the time axis begins is decided by the times of the events.
pub proof fn lemma_first_time_determined(
    a: Seq<(Actor, Seq<Event>)>,
    b: Seq<(Actor, Seq<Event>)>,
    ta: int,
    tb: int,
)
    requires
        same_times(a, b),
        is_first_time(a, ta),
        is_first_time(b, tb),
    ensures
        ta == tb,
{
    if ta != 0 {
        let (i, j) = choose|i: int, j: int|
            0 <= i < a.len() && 0 <= j < a[i].1.len() && (#[trigger] event_at(a, i, j)).spec_start()
                == ta;
        assert(event_at(a, i, j).kind == event_at(b, i, j).kind);
        assert(tb <= event_at(b, i, j).spec_start());
    }
    if tb != 0 {
        let (i, j) = choose|i: int, j: int|
            0 <= i < b.len() && 0 <= j < b[i].1.len() && (#[trigger] event_at(b, i, j)).spec_start()
                == tb;
        assert(event_at(a, i, j).kind == event_at(b, i, j).kind);
        assert(ta <= event_at(a, i, j).spec_start());
    }
}

/// Where the events end is decided by the times of the events.
pub proof fn lemma_last_time_determined(
    a: Seq<(Actor, Seq<Event>)>,
    b: Seq<(Actor, Seq<Event>)>,
    ta: int,
    tb: int,
)
    requires
        same_times(a, b),
        is_last_time(a, ta),
        is_last_time(b, tb),
    ensures
        ta == tb,
{
    if some_end(a) {
        let (i, j) = choose|i: int, j: int|
            0 <= i < a.len() && 0 <= j < a[i].1.len() && (#[trigger] event_at(a, i, j)).spec_end()
                == Some(ta);
        assert(event_at(a, i, j).kind == event_at(b, i, j).kind);
        assert(event_at(b, i, j).spec_end() == Some(ta));
        assert(some_end(b));
    }
    if some_end(b) {
        let (i, j) = choose|i: int, j: int|
            0 <= i < b.len() && 0 <= j < b[i].1.len() && (#[trigger] event_at(b, i, j)).spec_end()
                == Some(tb);
        assert(event_at(a, i, j).kind == event_at(b, i, j).kind);
        assert(event_at(a, i, j).spec_end() == Some(tb));
        assert(some_end(a));
    }
}

} // verus!
