use vstd::prelude::*;
use crate::text::id_lt;
use crate::text::str_lt;
use crate::text::lemma_id_irreflexive;
use crate::text::lemma_id_transitive;
use crate::text::lemma_id_total;

verus! {

/// When an event happened, in microseconds relative to the origin.
#[derive(Debug, PartialEq, Eq, Structural, Clone, Copy)]
pub enum EventKind {
    /// A start time and a duration; without a duration the span is open-ended.
    Span(i64, Option<u32>),
    /// A single point in time.
    Instant(i64),
}

#[derive(Debug, PartialEq, Eq)]
pub struct Event {
    /// Presentation attributes, by key.
    pub fields: Vec<(String, String)>,
    pub kind: EventKind,
    pub value: String,
    pub tooltip: Option<String>,
}

/// No key stands in two of the fields.
pub open spec fn keys_distinct(fields: Seq<(String, String)>) -> bool {
    forall|a: int, b: int|
        0 <= a < b < fields.len() ==> (#[trigger] fields[a]).0@ != (#[trigger] fields[b]).0@
}

/// Strict order on optional end times: an absent end comes before any present one.
pub open spec fn end_lt(a: Option<int>, b: Option<int>) -> bool {
    match (a, b) {
        (None, Some(_)) => true,
        (Some(x), Some(y)) => x < y,
        _ => false,
    }
}

/// Strict order of events: by start time, then by end time.
pub open spec fn key_lt(a: Event, b: Event) -> bool {
    a.spec_start() < b.spec_start() || (a.spec_start() == b.spec_start() && end_lt(
        a.spec_end(),
        b.spec_end(),
    ))
}

/// Two events that the store cannot tell apart: same start and same end.
pub open spec fn key_eq(a: Event, b: Event) -> bool {
    a.spec_start() == b.spec_start() && a.spec_end() == b.spec_end()
}

impl Event {
    pub open spec fn spec_start(&self) -> int {
        match self.kind {
            EventKind::Span(start, _) => start as int,
            EventKind::Instant(instant) => instant as int,
        }
    }

    pub open spec fn spec_end(&self) -> Option<int> {
        match self.kind {
            EventKind::Span(start, Some(duration)) => Some(start + duration),
            EventKind::Span(_, None) => None,
            EventKind::Instant(instant) => Some(instant as int),
        }
    }

    /// The end of a bounded span is a representable time.
    pub open spec fn end_fits(&self) -> bool {
        match self.kind {
            EventKind::Span(start, Some(duration)) => start + duration <= i64::MAX,
            _ => true,
        }
    }

    /// The end is a representable time, and no key has two fields.
    pub open spec fn wf(&self) -> bool {
        self.end_fits() && keys_distinct(self.fields@)
    }

    /// Whether the event is one that a store can take.
    pub fn is_wf(&self) -> (r: bool)
        ensures
            r == self.wf(),
    {
        let fits = match self.kind {
            EventKind::Span(start, Some(duration)) => start <= i64::MAX - (duration as i64),
            _ => true,
        };
        if !fits {
            return false;
        }
        let n: usize = self.fields.len();
        let mut j: usize = 0;
        while j < n
            invariant
                j <= n,
                n == self.fields@.len(),
                forall|a: int, b: int|
                    0 <= a < b < j ==> (#[trigger] self.fields@[a]).0@ != (
                    #[trigger] self.fields@[b]).0@,
            decreases n - j,
        {
            let mut i: usize = 0;
            while i < j
                invariant
                    i <= j,
                    j < n,
                    n == self.fields@.len(),
                    forall|a: int| 0 <= a < i ==> (#[trigger] self.fields@[a]).0@ != self.fields@[j as int].0@,
                decreases j - i,
            {
                if self.fields[i].0 == self.fields[j].0 {
                    return false;
                }
                i += 1;
            }
            j += 1;
        }
        true
    }

    pub fn start_time(&self) -> (t: i64)
        ensures
            t == self.spec_start(),
    {
        match self.kind {
            EventKind::Span(start, _) => start,
            EventKind::Instant(instant) => instant,
        }
    }

    pub fn end_time(&self) -> (t: Option<i64>)
        requires
            self.wf(),
        ensures
            match t {
                Some(end) => self.spec_end() == Some(end as int),
                None => self.spec_end().is_none(),
            },
    {
        match self.kind {
            EventKind::Span(start, Some(duration)) => Some(start + (duration as i64)),
            EventKind::Span(_, None) => None,
            EventKind::Instant(instant) => Some(instant),
        }
    }

    /// Whether `self` sorts strictly before `other`.
    pub fn precedes(&self, other: &Event) -> (r: bool)
        requires
            self.wf(),
            other.wf(),
        ensures
            r == key_lt(*self, *other),
    {
        let a: i64 = self.start_time();
        let b: i64 = other.start_time();
        if a != b {
            return a < b;
        }
        match (self.end_time(), other.end_time()) {
            (None, Some(_)) => true,
            (Some(x), Some(y)) => x < y,
            _ => false,
        }
    }

    /// Whether the store treats `self` and `other` as the same event.
    pub fn coincides(&self, other: &Event) -> (r: bool)
        requires
            self.wf(),
            other.wf(),
        ensures
            r == key_eq(*self, *other),
    {
        if self.start_time() != other.start_time() {
            return false;
        }
        match (self.end_time(), other.end_time()) {
            (None, None) => true,
            (Some(x), Some(y)) => x == y,
            _ => false,
        }
    }
}

#[derive(Debug, PartialEq, Eq)]
pub struct Actor {
    pub identity: String,
    pub tooltip: Option<String>,
}

impl Actor {
    pub fn new(identity: &str) -> (a: Actor)
        ensures
            a.identity@ == identity@,
            a.tooltip.is_none(),
    {
        Actor { identity: identity.to_owned(), tooltip: None }
    }
}

#[derive(Debug, PartialEq, Eq, Structural, Clone, Copy)]
pub enum StoreError {
    /// The identity is already registered.
    DuplicateActor,
    /// No actor with that id was registered.
    UnknownActor,
}

/// One actor together with its events, in ascending order.
#[derive(Debug)]
pub struct ActorEntry {
    pub actor: Actor,
    pub events: Vec<Event>,
}

/// All actors and their events. Actors are kept in the order of their
/// identities; the events of one actor are kept in ascending order, and no two
/// of them share a start and an end.
#[derive(Debug)]
pub struct EventStore {
    entries: Vec<ActorEntry>,
}

/// Every event of the sequence sorts strictly before the ones after it.
pub open spec fn events_sorted(events: Seq<Event>) -> bool {
    forall|i: int, j: int| 0 <= i < j < events.len() ==> key_lt(events[i], events[j])
}

pub open spec fn events_wf(events: Seq<Event>) -> bool {
    forall|i: int| 0 <= i < events.len() ==> (#[trigger] events[i]).wf()
}

/// Whether some event of the sequence has the start and end of `event`.
pub open spec fn has_key(events: Seq<Event>, event: Event) -> bool {
    exists|k: int| 0 <= k < events.len() && key_eq(#[trigger] events[k], event)
}

/// Every identity sorts strictly before the ones after it.
pub open spec fn ids_sorted(rows: Seq<(Actor, Seq<Event>)>) -> bool {
    forall|i: int, j: int|
        0 <= i < j < rows.len() ==> id_lt(
            (#[trigger] rows[i]).0.identity@,
            (#[trigger] rows[j]).0.identity@,
        )
}

/// Whether one of the rows belongs to the actor `id`.
pub open spec fn rows_have(rows: Seq<(Actor, Seq<Event>)>, id: Seq<char>) -> bool {
    exists|i: int| 0 <= i < rows.len() && (#[trigger] rows[i]).0.identity@ == id
}

/// The row of the actor `id`, where there is one.
pub open spec fn row_of(rows: Seq<(Actor, Seq<Event>)>, id: Seq<char>) -> int {
    choose|i: int| 0 <= i < rows.len() && (#[trigger] rows[i]).0.identity@ == id
}

/// An actor that was registered is known to the store afterwards, so that
/// registering the same identity again fails.
pub proof fn lemma_registered_is_known(
    before: Seq<(Actor, Seq<Event>)>,
    after: Seq<(Actor, Seq<Event>)>,
    actor: Actor,
    p: int,
)
    requires
        0 <= p <= before.len(),
        after == before.insert(p, (actor, Seq::<Event>::empty())),
    ensures
        rows_have(after, actor.identity@),
        forall|id: Seq<char>| rows_have(before, id) ==> rows_have(after, id),
{
    assert(after[p].0.identity@ == actor.identity@);
    assert forall|id: Seq<char>| rows_have(before, id) implies rows_have(after, id) by {
        let i = choose|i: int| 0 <= i < before.len() && (#[trigger] before[i]).0.identity@ == id;
        let k = if i < p { i } else { i + 1 };
        assert(after[k] == before[i]);
    }
}

/// In a store, the events of every actor are in ascending order: each one
/// starts no earlier than the one before it, and where two start together the
/// earlier one ends first.
pub proof fn lemma_events_ascending(store: EventStore, id: Seq<char>, i: int, j: int)
    requires
        store.wf(),
        store.has_actor(id),
        0 <= i < j < store.events_of(id).len(),
    ensures
        key_lt(store.events_of(id)[i], store.events_of(id)[j]),
        !key_eq(store.events_of(id)[i], store.events_of(id)[j]),
{
    let events = store@[row_of(store@, id)].1;
    assert(events_sorted(events));
    assert(key_lt(events[i], events[j]));
    assert(end_lt(events[i].spec_end(), events[j].spec_end()) ==> events[i].spec_end()
        != events[j].spec_end());
}

/// In rows sorted by identity, an identity stands in one row at most.
pub proof fn lemma_row_unique(rows: Seq<(Actor, Seq<Event>)>, i: int, j: int)
    requires
        ids_sorted(rows),
        0 <= i < rows.len(),
        0 <= j < rows.len(),
        rows[i].0.identity@ == rows[j].0.identity@,
    ensures
        i == j,
{
    lemma_id_irreflexive(rows[i].0.identity@);
}

impl View for EventStore {
    type V = Seq<(Actor, Seq<Event>)>;

    /// The store as rows, one for each actor: the actor and its events.
    closed spec fn view(&self) -> Seq<(Actor, Seq<Event>)> {
        Seq::new(
            self.entries@.len(),
            |i: int| (self.entries@[i].actor, self.entries@[i].events@),
        )
    }
}

impl EventStore {
    pub open spec fn wf(&self) -> bool {
        &&& ids_sorted(self@)
        &&& forall|i: int|
            0 <= i < self@.len() ==> events_sorted((#[trigger] self@[i]).1) && events_wf(self@[i].1)
    }

    pub open spec fn has_actor(&self, id: Seq<char>) -> bool {
        rows_have(self@, id)
    }

    /// The events of the actor `id`, in ascending order.
    pub open spec fn events_of(&self, id: Seq<char>) -> Seq<Event> {
        self@[row_of(self@, id)].1
    }

    pub fn new() -> (s: EventStore)
        ensures
            s@.len() == 0,
            s.wf(),
    {
        EventStore { entries: Vec::new() }
    }

    /// The row of the actor `id`.
    pub fn find(&self, id: &String) -> (r: Option<usize>)
        ensures
            match r {
                Some(i) => i < self@.len() && self@[i as int].0.identity@ == id@,
                None => !self.has_actor(id@),
            },
    {
        let mut i: usize = 0;
        while i < self.entries.len()
            invariant
                i <= self.entries@.len(),
                forall|j: int| 0 <= j < i ==> (#[trigger] self@[j]).0.identity@ != id@,
            decreases self.entries@.len() - i,
        {
            if self.entries[i].actor.identity == *id {
                assert(self@[i as int].0.identity@ == id@);
                return Some(i);
            }
            assert(self@[i as int].0.identity@ != id@);
            i += 1;
        }
        None
    }

    /// Registers `actor` and returns its id, unless the identity is taken.
    pub fn register_actor(&mut self, actor: Actor) -> (r: Result<String, StoreError>)
        requires
            old(self).wf(),
        ensures
            final(self).wf(),
            match r {
                Ok(id) => {
                    &&& !old(self).has_actor(actor.identity@)
                    &&& id@ == actor.identity@
                    &&& final(self).has_actor(id@)
                    &&& final(self).events_of(id@) == Seq::<Event>::empty()
                    &&& exists|p: int|
                        0 <= p <= old(self)@.len() && final(self)@ == old(self)@.insert(
                            p,
                            (actor, Seq::<Event>::empty()),
                        )
                },
                Err(e) => {
                    &&& e == StoreError::DuplicateActor
                    &&& old(self).has_actor(actor.identity@)
                    &&& *final(self) == *old(self)
                },
            },
    {
        let ghost before = self@;
        let ghost name = actor.identity@;
        let mut i: usize = 0;
        while i < self.entries.len() && str_lt(
            self.entries[i].actor.identity.as_str(),
            actor.identity.as_str(),
        )
            invariant
                i <= self.entries@.len(),
                self@ == before,
                name == actor.identity@,
                forall|j: int| 0 <= j < i ==> id_lt((#[trigger] before[j]).0.identity@, name),
            decreases self.entries@.len() - i,
        {
            assert(id_lt(before[i as int].0.identity@, name));
            i += 1;
        }
        assert(i < before.len() ==> !id_lt(before[i as int].0.identity@, name));
        if i < self.entries.len() && self.entries[i].actor.identity == actor.identity {
            assert(before[i as int].0.identity@ == name);
            return Err(StoreError::DuplicateActor);
        }
        proof {
            assert forall|j: int| i <= j < before.len() implies id_lt(
                name,
                (#[trigger] before[j]).0.identity@,
            ) by {
                lemma_id_total(before[i as int].0.identity@, name);
                if j > i {
                    lemma_id_transitive(name, before[i as int].0.identity@, before[j].0.identity@);
                }
            }
            assert forall|j: int| 0 <= j < before.len() implies (#[trigger] before[j]).0.identity@
                != name by {
                lemma_id_irreflexive(name);
            }
        }
        let id = actor.identity.clone();
        self.entries.insert(i, ActorEntry { actor, events: Vec::new() });
        proof {
            let row = (actor, Seq::<Event>::empty());
            assert(self.entries@[i as int].events@ =~= Seq::<Event>::empty());
            assert(self@ =~= before.insert(i as int, row));
            let after = self@;
            lemma_registered_is_known(before, after, actor, i as int);
            assert forall|a: int, b: int| 0 <= a < b < after.len() implies id_lt(
                (#[trigger] after[a]).0.identity@,
                (#[trigger] after[b]).0.identity@,
            ) by {
                let pa = if a < i { a } else { a - 1 };
                let pb = if b < i { b } else { b - 1 };
                if a != i && b != i {
                    assert(after[a] == before[pa]);
                    assert(after[b] == before[pb]);
                } else if a == i {
                    assert(after[b] == before[pb]);
                } else {
                    assert(after[a] == before[pa]);
                }
            }
            assert forall|a: int| 0 <= a < after.len() implies events_sorted(
                (#[trigger] after[a]).1,
            ) && events_wf(after[a].1) by {
                if a != i {
                    let pa = if a < i { a } else { a - 1 };
                    assert(after[a] == before[pa]);
                }
            }
        }
        proof {
            lemma_row_unique(self@, i as int, row_of(self@, name));
        }
        Ok(id)
    }

    /// Adds `event` to the events of `actor`. An event with the same start and
    /// end as one that is already there is dropped.
    pub fn add_event(&mut self, actor: &String, event: Event) -> (r: Result<(), StoreError>)
        requires
            old(self).wf(),
            event.wf(),
        ensures
            final(self).wf(),
            match r {
                Ok(_) => {
                    let row = row_of(old(self)@, actor@);
                    &&& old(self).has_actor(actor@)
                    &&& final(self).has_actor(actor@)
                    &&& row == row_of(final(self)@, actor@)
                    &&& added(old(self)@[row].1, event, final(self)@[row].1)
                    &&& final(self)@ == old(self)@.update(
                        row,
                        (old(self)@[row].0, final(self)@[row].1),
                    )
                },
                Err(e) => {
                    &&& e == StoreError::UnknownActor
                    &&& !old(self).has_actor(actor@)
                    &&& *final(self) == *old(self)
                },
            },
    {
        let ghost before = self@;
        let i = match self.find(actor) {
            Some(i) => i,
            None => {
                return Err(StoreError::UnknownActor);
            },
        };
        proof {
            lemma_row_unique(before, i as int, row_of(before, actor@));
        }
        let ghost events = before[i as int].1;
        assert(events == self.entries@[i as int].events@);
        let mut p: usize = 0;
        while p < self.entries[i].events.len() && self.entries[i].events[p].precedes(&event)
            invariant
                p <= events.len(),
                i < self.entries@.len(),
                events == self.entries@[i as int].events@,
                events_wf(events),
                event.wf(),
                forall|j: int| 0 <= j < p ==> key_lt(#[trigger] events[j], event),
            decreases events.len() - p,
        {
            p += 1;
        }
        if p < self.entries[i].events.len() && self.entries[i].events[p].coincides(&event) {
            assert(key_eq(events[p as int], event));
            assert(before =~= before.update(i as int, (before[i as int].0, before[i as int].1)));
            return Ok(());
        }
        proof {
            assert forall|j: int| p <= j < events.len() implies key_lt(
                event,
                #[trigger] events[j],
            ) by {
                assert(!key_lt(events[p as int], event));
                assert(!key_eq(events[p as int], event));
                if j > p {
                    assert(key_lt(events[p as int], events[j]));
                }
            }
            assert(!has_key(events, event));
        }
        let mut entry = self.entries.remove(i);
        entry.events.insert(p, event);
        self.entries.insert(i, entry);
        proof {
            let grown = events.insert(p as int, event);
            assert(self@ =~= before.update(i as int, (before[i as int].0, grown)));
            assert forall|a: int, b: int| 0 <= a < b < grown.len() implies key_lt(
                grown[a],
                grown[b],
            ) by {
                let pa = if a < p { a } else { a - 1 };
                let pb = if b < p { b } else { b - 1 };
                if a != p && b != p {
                    assert(key_lt(events[pa], events[pb]));
                } else if a == p {
                    assert(key_lt(event, events[pb]));
                } else {
                    assert(key_lt(events[pa], event));
                }
            }
            assert forall|a: int| 0 <= a < grown.len() implies (#[trigger] grown[a]).wf() by {
                if a != p {
                    let pa = if a < p { a } else { a - 1 };
                    assert(grown[a] == events[pa]);
                }
            }
            let after = self@;
            assert forall|a: int| 0 <= a < after.len() implies events_sorted(
                (#[trigger] after[a]).1,
            ) && events_wf(after[a].1) by {
                if a != i {
                    assert(after[a] == before[a]);
                }
            }
            assert forall|a: int, b: int| 0 <= a < b < after.len() implies id_lt(
                (#[trigger] after[a]).0.identity@,
                (#[trigger] after[b]).0.identity@,
            ) by {
                assert(after[a].0 == before[a].0);
                assert(after[b].0 == before[b].0);
            }
            assert(after[i as int].0.identity@ == actor@);
            lemma_row_unique(after, i as int, row_of(after, actor@));
        }
        Ok(())
    }

    /// The events of `actor`, in ascending order of start and end.
    pub fn events_for(&self, actor: &String) -> (r: Result<&Vec<Event>, StoreError>)
        requires
            self.wf(),
        ensures
            match r {
                Ok(events) => {
                    &&& self.has_actor(actor@)
                    &&& events@ == self.events_of(actor@)
                    &&& events_sorted(events@)
                    &&& events_wf(events@)
                },
                Err(e) => e == StoreError::UnknownActor && !self.has_actor(actor@),
            },
    {
        match self.find(actor) {
            Some(i) => {
                proof {
                    lemma_row_unique(self@, i as int, row_of(self@, actor@));
                }
                Ok(&self.entries[i].events)
            },
            None => Err(StoreError::UnknownActor),
        }
    }

    /// Every event of every actor: actor after actor in the order of the
    /// identities, the events of one actor in ascending order.
    pub fn all_events(&self) -> (all: Vec<&Event>)
        ensures
            all@.map_values(|e: &Event| *e) == all_rows_events(self@),
    {
        let mut all: Vec<&Event> = Vec::new();
        let mut i: usize = 0;
        proof {
            assert(self@.take(0) =~= Seq::empty());
            assert(all@.map_values(|e: &Event| *e) =~= Seq::<Event>::empty());
        }
        while i < self.entries.len()
            invariant
                i <= self.entries@.len(),
                all@.map_values(|e: &Event| *e) == all_rows_events(self@.take(i as int)),
            decreases self.entries@.len() - i,
        {
            let events = &self.entries[i].events;
            let ghost done = all_rows_events(self@.take(i as int));
            let mut k: usize = 0;
            proof {
                assert(events@.take(0) =~= Seq::empty());
                assert(done + events@.take(0) =~= done);
            }
            while k < events.len()
                invariant
                    k <= events@.len(),
                    all@.map_values(|e: &Event| *e) == done + events@.take(k as int),
                decreases events@.len() - k,
            {
                let ghost prior = all@;
                all.push(&events[k]);
                proof {
                    assert(events@.take(k + 1) =~= events@.take(k as int).push(events@[k as int]));
                    assert(all@.map_values(|e: &Event| *e) =~= prior.map_values(|e: &Event| *e).push(
                        events@[k as int],
                    ));
                    assert(done + events@.take(k + 1) =~= (done + events@.take(k as int)).push(
                        events@[k as int],
                    ));
                }
                k += 1;
            }
            proof {
                assert(events@.take(k as int) =~= events@);
                assert(self@.take(i + 1).drop_last() =~= self@.take(i as int));
                assert(self@.take(i + 1).last() == self@[i as int]);
            }
            i += 1;
        }
        proof {
            assert(self@.take(i as int) =~= self@);
        }
        all
    }

    /// The registered actor ids, in the order of the identities.
    pub fn actors(&self) -> (ids: Vec<String>)
        ensures
            ids@.len() == self@.len(),
            forall|i: int| 0 <= i < ids@.len() ==> (#[trigger] ids@[i])@ == self@[i].0.identity@,
    {
        let mut ids: Vec<String> = Vec::new();
        let mut i: usize = 0;
        while i < self.entries.len()
            invariant
                i <= self.entries@.len(),
                ids@.len() == i,
                forall|j: int| 0 <= j < i ==> (#[trigger] ids@[j])@ == self@[j].0.identity@,
            decreases self.entries@.len() - i,
        {
            ids.push(self.entries[i].actor.identity.clone());
            i += 1;
        }
        ids
    }

    /// The actor registered under `id`.
    pub fn get_actor(&self, id: &String) -> (a: &Actor)
        requires
            self.wf(),
            self.has_actor(id@),
        ensures
            *a == self@[row_of(self@, id@)].0,
            a.identity@ == id@,
    {
        match self.find(id) {
            Some(i) => {
                proof {
                    lemma_row_unique(self@, i as int, row_of(self@, id@));
                }
                &self.entries[i].actor
            },
            None => {
                proof {
                    assert(false);
                }
                &self.entries[0].actor
            },
        }
    }

    /// Adds `events` to the events of `actor`, one after the other.
    pub fn add_events(&mut self, actor: &String, events: Vec<Event>)
        requires
            old(self).wf(),
            old(self).has_actor(actor@),
            events_wf(events@),
        ensures
            final(self).wf(),
            final(self)@.len() == old(self)@.len(),
            forall|r: int|
                0 <= r < old(self)@.len() ==> (#[trigger] final(self)@[r]).0 == old(self)@[r].0,
            forall|r: int|
                0 <= r < old(self)@.len() && r != row_of(old(self)@, actor@) ==> (
                #[trigger] final(self)@[r]) == old(self)@[r],
            exists|states: Seq<Seq<Event>>|
                {
                    &&& #[trigger] is_run(events@, states)
                    &&& states[0] == old(self)@[row_of(old(self)@, actor@)].1
                    &&& states.last() == final(self)@[row_of(old(self)@, actor@)].1
                },
    {
        let ghost base = self@;
        let ghost row = row_of(base, actor@);
        let ghost all = events@;
        let ghost mut states: Seq<Seq<Event>> = seq![base[row].1];
        let mut rest = events;
        let ghost mut n: int = 0;
        proof {
            assert(all.skip(0) =~= all);
        }
        while rest.len() > 0
            invariant
                0 <= n <= all.len(),
                rest@ == all.skip(n),
                events_wf(all),
                self.wf(),
                self.has_actor(actor@),
                row == row_of(self@, actor@),
                row == row_of(base, actor@),
                0 <= row < base.len(),
                self@.len() == base.len(),
                forall|r: int| 0 <= r < base.len() ==> (#[trigger] self@[r]).0 == base[r].0,
                forall|r: int| 0 <= r < base.len() && r != row ==> (#[trigger] self@[r]) == base[r],
                states.len() == n + 1,
                states[0] == base[row].1,
                states[n] == self@[row].1,
                forall|i: int| 0 <= i < n ==> added(#[trigger] states[i], all[i], states[i + 1]),
            decreases rest@.len(),
        {
            let ghost prior = self@;
            let event = rest.remove(0);
            proof {
                assert(event == all[n]);
                assert(all.skip(n).remove(0) =~= all.skip(n + 1));
                assert(all[n].wf());
            }
            match self.add_event(actor, event) {
                Ok(_) => {},
                Err(_) => {
                    assert(false);
                },
            }
            proof {
                let old_states = states;
                states = states.push(self@[row].1);
                assert forall|i: int| 0 <= i < n + 1 implies added(
                    #[trigger] states[i],
                    all[i],
                    states[i + 1],
                ) by {
                    if i < n {
                        assert(states[i] == old_states[i]);
                        assert(states[i + 1] == old_states[i + 1]);
                    }
                }
            }
            proof {
                n = n + 1;
            }
        }
        proof {
            assert(all.skip(n).len() == 0);
            assert(is_run(events@, states));
        }
    }

    /// The number of registered actors.
    pub fn actor_count(&self) -> (n: usize)
        ensures
            n == self@.len(),
    {
        self.entries.len()
    }

    /// The actor in row `row` and its events.
    pub fn row(&self, row: usize) -> (r: (&Actor, &Vec<Event>))
        requires
            row < self@.len(),
        ensures
            *r.0 == self@[row as int].0,
            r.1@ == self@[row as int].1,
    {
        (&self.entries[row].actor, &self.entries[row].events)
    }
}

/// The events of all rows, row after row.
pub open spec fn all_rows_events(rows: Seq<(Actor, Seq<Event>)>) -> Seq<Event>
    decreases rows.len(),
{
    if rows.len() == 0 {
        Seq::empty()
    } else {
        all_rows_events(rows.drop_last()) + rows.last().1
    }
}

/// How the events of an actor change when `event` is added: nothing changes
/// where an event with the same start and end is there already, else `event`
/// goes in at one place.
pub open spec fn added(before: Seq<Event>, event: Event, after: Seq<Event>) -> bool {
    if has_key(before, event) {
        after == before
    } else {
        exists|p: int| 0 <= p <= before.len() && after == before.insert(p, event)
    }
}

/// `states` are the events of one actor while the events of `history` are
/// added to it, one after the other.
pub open spec fn is_run(history: Seq<Event>, states: Seq<Seq<Event>>) -> bool {
    &&& states.len() == history.len() + 1
    &&& forall|i: int|
        0 <= i < history.len() ==> added(#[trigger] states[i], history[i], states[i + 1])
}

/// `states` are the events of one actor while the events of `history` are
/// added to it, one after the other, beginning with none.
pub open spec fn is_history(history: Seq<Event>, states: Seq<Seq<Event>>) -> bool {
    is_run(history, states) && states[0].len() == 0
}

/// Event `i` of `history` is the first one there with its start and end.
pub open spec fn is_first_of_pair(history: Seq<Event>, i: int) -> bool {
    &&& 0 <= i < history.len()
    &&& forall|j: int| 0 <= j < i ==> !#[trigger] key_eq(history[j], history[i])
}

/// `events` holds what is kept of `history`: for each pair of start and end
/// that occurs in the history one event, and that the first one added with
/// the pair, as it was added.
pub open spec fn is_kept(history: Seq<Event>, events: Seq<Event>) -> bool {
    &&& forall|j: int|
        0 <= j < events.len() ==> exists|i: int|
            #[trigger] is_first_of_pair(history, i) && history[i] == #[trigger] events[j]
    &&& forall|i: int| 0 <= i < history.len() ==> #[trigger] has_key(events, history[i])
    &&& forall|a: int, b: int| 0 <= a < b < events.len() ==> !#[trigger] key_eq(events[a], events[b])
}

/// A store that keeps a history keeps it with one event more.
pub proof fn lemma_kept_step(h: Seq<Event>, prev: Seq<Event>, e: Event, next: Seq<Event>)
    requires
        is_kept(h, prev),
        added(prev, e, next),
    ensures
        is_kept(h.push(e), next),
{
    let g = h.push(e);
    let n = h.len() as int;
    assert forall|i: int| is_first_of_pair(h, i) implies is_first_of_pair(g, i) by {
        assert forall|j: int| 0 <= j < i implies !#[trigger] key_eq(g[j], g[i]) by {
            assert(g[j] == h[j]);
            assert(g[i] == h[i]);
            assert(!key_eq(h[j], h[i]));
        }
    }
    if has_key(prev, e) {
        assert forall|j: int| 0 <= j < next.len() implies exists|i: int|
            #[trigger] is_first_of_pair(g, i) && g[i] == #[trigger] next[j] by {
            let i = choose|i: int| #[trigger] is_first_of_pair(h, i) && h[i] == prev[j];
            assert(is_first_of_pair(g, i) && g[i] == next[j]);
        }
        assert forall|i: int| 0 <= i < g.len() implies #[trigger] has_key(next, g[i]) by {
            if i < n {
                assert(has_key(prev, h[i]));
            }
        }
    } else {
        let p = choose|p: int| 0 <= p <= prev.len() && next == prev.insert(p, e);
        assert forall|i: int| 0 <= i < n implies !#[trigger] key_eq(g[i], e) by {
            assert(has_key(prev, h[i]));
            let k = choose|k: int| 0 <= k < prev.len() && key_eq(#[trigger] prev[k], h[i]);
            if key_eq(g[i], e) {
                assert(key_eq(prev[k], e));
            }
        }
        assert(is_first_of_pair(g, n)) by {
            assert(g[n] == e);
        }
        assert forall|j: int| 0 <= j < next.len() implies exists|i: int|
            #[trigger] is_first_of_pair(g, i) && g[i] == #[trigger] next[j] by {
            if j == p {
                assert(is_first_of_pair(g, n) && g[n] == next[j]);
            } else {
                let pj = if j < p { j } else { j - 1 };
                assert(next[j] == prev[pj]);
                let i = choose|i: int| #[trigger] is_first_of_pair(h, i) && h[i] == prev[pj];
                assert(is_first_of_pair(g, i) && g[i] == next[j]);
            }
        }
        assert forall|i: int| 0 <= i < g.len() implies #[trigger] has_key(next, g[i]) by {
            if i < n {
                assert(has_key(prev, h[i]));
                let k = choose|k: int| 0 <= k < prev.len() && key_eq(#[trigger] prev[k], h[i]);
                let nk = if k < p { k } else { k + 1 };
                assert(next[nk] == prev[k]);
                assert(key_eq(next[nk], g[i]));
            } else {
                assert(next[p] == e);
                assert(key_eq(next[p], g[i]));
            }
        }
        assert forall|a: int, b: int| 0 <= a < b < next.len() implies !#[trigger] key_eq(
            next[a],
            next[b],
        ) by {
            let pa = if a < p { a } else { a - 1 };
            let pb = if b < p { b } else { b - 1 };
            if a != p && b != p {
                assert(next[a] == prev[pa]);
                assert(next[b] == prev[pb]);
                assert(!key_eq(prev[pa], prev[pb]));
            } else if a == p {
                assert(next[b] == prev[pb]);
                assert(!key_eq(prev[pb], e));
            } else {
                assert(next[a] == prev[pa]);
                assert(!key_eq(prev[pa], e));
            }
        }
    }
}

/// Whatever events are added to an actor, and in whatever order, the actor
/// has one event for each pair of start and end that was added: the first
/// one added with that pair, unchanged.
pub proof fn lemma_history_kept(history: Seq<Event>, states: Seq<Seq<Event>>, n: int)
    requires
        is_history(history, states),
        0 <= n <= history.len(),
    ensures
        is_kept(history.take(n), states[n]),
    decreases n,
{
    if n > 0 {
        lemma_history_kept(history, states, n - 1);
        assert(added(states[n - 1], history[n - 1], states[n]));
        lemma_kept_step(history.take(n - 1), states[n - 1], history[n - 1], states[n]);
        assert(history.take(n) =~= history.take(n - 1).push(history[n - 1]));
    } else {
        assert(history.take(0) =~= Seq::<Event>::empty());
    }
}

impl Default for EventStore {
    fn default() -> (s: EventStore)
        ensures
            s@.len() == 0,
            s.wf(),
    {
        EventStore::new()
    }
}

} // verus!
