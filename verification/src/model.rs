use vstd::prelude::*;
use crate::event::events_sorted;
use crate::event::events_wf;
use crate::event::ids_sorted;
use crate::event::key_eq;
use crate::event::key_lt;
use crate::event::has_key;
use crate::event::is_first_of_pair;
use crate::render::is_scene;
use crate::render::lemma_scene_determined;
use crate::render::same_opts;
use crate::render::same_scene;
use crate::render::RenderOpts;
use crate::render::Scene;
use crate::text::lemma_id_irreflexive;
use crate::text::lemma_id_transitive;
use crate::event::is_history;
use crate::event::is_kept;
use crate::event::is_run;
use crate::event::lemma_history_kept;
use crate::event::lemma_row_unique;
use crate::event::row_of;
use crate::event::rows_have;
use crate::event::Actor;
use crate::event::Event;
use crate::event::EventStore;

verus! {

/// Why actors and events that were read do not make a store.
#[derive(Debug, PartialEq, Eq, Structural, Clone, Copy)]
pub enum ModelError {
    /// An actor stands under an id that is not its identity.
    IdMismatch,
    /// Two actors have one identity.
    DuplicateActor,
    /// Two entries of events stand under one id.
    DuplicateEntry,
    /// An actor has no entry of events.
    MissingEntry,
    /// Events stand under an id that no actor has.
    UnknownActor,
    /// An event ends after the last time there is, or has two fields of one key.
    BadEvent,
}

pub open spec fn ids_match(actors: Seq<(String, Actor)>) -> bool {
    forall|i: int| 0 <= i < actors.len() ==> (#[trigger] actors[i]).0@ == actors[i].1.identity@
}

pub open spec fn ids_distinct(actors: Seq<(String, Actor)>) -> bool {
    forall|i: int, j: int|
        0 <= i < j < actors.len() ==> (#[trigger] actors[i]).1.identity@ != (
        #[trigger] actors[j]).1.identity@
}

pub open spec fn entries_distinct(entries: Seq<(String, Vec<Event>)>) -> bool {
    forall|k: int, l: int|
        0 <= k < l < entries.len() ==> (#[trigger] entries[k]).0@ != (#[trigger] entries[l]).0@
}

/// Whether one of the actors has the identity `id`.
pub open spec fn has_id(actors: Seq<(String, Actor)>, id: Seq<char>) -> bool {
    exists|i: int| 0 <= i < actors.len() && (#[trigger] actors[i]).1.identity@ == id
}

/// Whether events stand under the id `id`.
pub open spec fn has_entry(entries: Seq<(String, Vec<Event>)>, id: Seq<char>) -> bool {
    exists|k: int| 0 <= k < entries.len() && (#[trigger] entries[k]).0@ == id
}

pub open spec fn entries_known(actors: Seq<(String, Actor)>, entries: Seq<(String, Vec<Event>)>) -> bool {
    forall|k: int| 0 <= k < entries.len() ==> #[trigger] has_id(actors, entries[k].0@)
}

pub open spec fn actors_have_entries(
    actors: Seq<(String, Actor)>,
    entries: Seq<(String, Vec<Event>)>,
) -> bool {
    forall|i: int| 0 <= i < actors.len() ==> #[trigger] has_entry(entries, actors[i].1.identity@)
}

pub open spec fn entries_wf(entries: Seq<(String, Vec<Event>)>) -> bool {
    forall|k: int| 0 <= k < entries.len() ==> #[trigger] events_wf(entries[k].1@)
}

/// The actors and the entries of events are those of a store: each actor
/// stands under its identity, no identity and no id occurs twice, the actors
/// and the entries go together one to one, and every event is one that a
/// store can take.
pub open spec fn model_ok(actors: Seq<(String, Actor)>, entries: Seq<(String, Vec<Event>)>) -> bool {
    &&& ids_match(actors)
    &&& ids_distinct(actors)
    &&& entries_distinct(entries)
    &&& actors_have_entries(actors, entries)
    &&& entries_known(actors, entries)
    &&& entries_wf(entries)
}

/// What an error says of the actors and entries: which rule they break.
pub open spec fn is_broken(
    e: ModelError,
    actors: Seq<(String, Actor)>,
    entries: Seq<(String, Vec<Event>)>,
) -> bool {
    match e {
        ModelError::IdMismatch => !ids_match(actors),
        ModelError::DuplicateActor => !ids_distinct(actors),
        ModelError::DuplicateEntry => !entries_distinct(entries),
        ModelError::MissingEntry => !actors_have_entries(actors, entries),
        ModelError::UnknownActor => !entries_known(actors, entries),
        ModelError::BadEvent => !entries_wf(entries),
    }
}

/// Whether one of the rows is that of `actor`.
pub open spec fn holds_actor(rows: Seq<(Actor, Seq<Event>)>, actor: Actor) -> bool {
    exists|r: int| 0 <= r < rows.len() && (#[trigger] rows[r]).0 == actor
}

/// The events of the actor `id` are what is kept of `events`, added one after
/// the other to an actor without events.
pub open spec fn entry_kept(rows: Seq<(Actor, Seq<Event>)>, id: Seq<char>, events: Seq<Event>) -> bool {
    exists|states: Seq<Seq<Event>>|
        #[trigger] is_history(events, states) && states.last() == rows[row_of(rows, id)].1
}

/// An actor whose events were added from an entry has one event for each
/// pair of start and end in the entry: the first one there with that pair.
pub proof fn lemma_entry_kept(rows: Seq<(Actor, Seq<Event>)>, id: Seq<char>, events: Seq<Event>)
    requires
        entry_kept(rows, id, events),
    ensures
        is_kept(events, rows[row_of(rows, id)].1),
{
    let states = choose|states: Seq<Seq<Event>>|
        #[trigger] is_history(events, states) && states.last() == rows[row_of(rows, id)].1;
    lemma_history_kept(events, states, events.len() as int);
    assert(events.take(events.len() as int) =~= events);
}

/// `store` is the store of the actors and entries: it has these actors and
/// no others, and each has the events of its entry.
pub open spec fn is_rebuilt(
    actors: Seq<(String, Actor)>,
    entries: Seq<(String, Vec<Event>)>,
    store: EventStore,
) -> bool {
    &&& store.wf()
    &&& store@.len() == actors.len()
    &&& forall|i: int| 0 <= i < actors.len() ==> #[trigger] holds_actor(store@, actors[i].1)
    &&& forall|k: int|
        0 <= k < entries.len() ==> #[trigger] entry_kept(store@, entries[k].0@, entries[k].1@)
}

fn ids_all_match(actors: &Vec<(String, Actor)>) -> (r: bool)
    ensures
        r == ids_match(actors@),
{
    let mut i: usize = 0;
    while i < actors.len()
        invariant
            i <= actors@.len(),
            forall|j: int| 0 <= j < i ==> (#[trigger] actors@[j]).0@ == actors@[j].1.identity@,
        decreases actors@.len() - i,
    {
        if actors[i].0 != actors[i].1.identity {
            return false;
        }
        i += 1;
    }
    true
}

fn entries_all_distinct(entries: &Vec<(String, Vec<Event>)>) -> (r: bool)
    ensures
        r == entries_distinct(entries@),
{
    let mut l: usize = 0;
    while l < entries.len()
        invariant
            l <= entries@.len(),
            forall|a: int, b: int|
                0 <= a < b < l ==> (#[trigger] entries@[a]).0@ != (#[trigger] entries@[b]).0@,
        decreases entries@.len() - l,
    {
        let mut k: usize = 0;
        while k < l
            invariant
                k <= l,
                l < entries@.len(),
                forall|a: int| 0 <= a < k ==> (#[trigger] entries@[a]).0@ != entries@[l as int].0@,
            decreases l - k,
        {
            if entries[k].0 == entries[l].0 {
                return false;
            }
            k += 1;
        }
        l += 1;
    }
    true
}

fn entry_for(entries: &Vec<(String, Vec<Event>)>, id: &String) -> (r: bool)
    ensures
        r == has_entry(entries@, id@),
{
    let mut k: usize = 0;
    while k < entries.len()
        invariant
            k <= entries@.len(),
            forall|a: int| 0 <= a < k ==> (#[trigger] entries@[a]).0@ != id@,
        decreases entries@.len() - k,
    {
        if entries[k].0 == *id {
            return true;
        }
        k += 1;
    }
    false
}

fn all_wf(events: &Vec<Event>) -> (r: bool)
    ensures
        r == events_wf(events@),
{
    let mut j: usize = 0;
    while j < events.len()
        invariant
            j <= events@.len(),
            forall|a: int| 0 <= a < j ==> (#[trigger] events@[a]).wf(),
        decreases events@.len() - j,
    {
        if !events[j].is_wf() {
            return false;
        }
        j += 1;
    }
    true
}

/// The actors and entries list the rows of a store, row by row.
pub open spec fn is_listing(
    rows: Seq<(Actor, Seq<Event>)>,
    actors: Seq<(String, Actor)>,
    entries: Seq<(String, Vec<Event>)>,
) -> bool {
    &&& actors.len() == rows.len()
    &&& entries.len() == rows.len()
    &&& forall|i: int|
        0 <= i < rows.len() ==> (#[trigger] actors[i]).0@ == rows[i].0.identity@ && actors[i].1
            == rows[i].0
    &&& forall|i: int|
        0 <= i < rows.len() ==> (#[trigger] entries[i]).0@ == rows[i].0.identity@
            && entries[i].1@ == rows[i].1
}

/// A map that keeps the order of `n` places and stays below `m` needs room:
/// there are no more places than `m`.
pub proof fn lemma_monotone_room(f: spec_fn(int) -> int, n: int, m: int)
    requires
        0 < n,
        forall|a: int, b: int| 0 <= a < b < n ==> #[trigger] f(a) < #[trigger] f(b),
        forall|a: int| 0 <= a < n ==> 0 <= #[trigger] f(a) < m,
    ensures
        n <= m,
{
    lemma_monotone_up(f, n, m, n - 1);
}

/// A map that keeps the order of the places below `n` moves no place down.
pub proof fn lemma_monotone_up(f: spec_fn(int) -> int, n: int, m: int, i: int)
    requires
        0 <= i < n,
        forall|a: int, b: int| 0 <= a < b < n ==> #[trigger] f(a) < #[trigger] f(b),
        forall|a: int| 0 <= a < n ==> 0 <= #[trigger] f(a) < m,
    ensures
        i <= f(i),
    decreases i,
{
    if i > 0 {
        lemma_monotone_up(f, n, m, i - 1);
        assert(f(i - 1) < f(i));
    }
}

/// Where there are as many places as room, such a map moves no place at all.
pub proof fn lemma_monotone_fixed(f: spec_fn(int) -> int, n: int, i: int)
    requires
        0 <= i < n,
        forall|a: int, b: int| 0 <= a < b < n ==> #[trigger] f(a) < #[trigger] f(b),
        forall|a: int| 0 <= a < n ==> 0 <= #[trigger] f(a) < n,
    ensures
        f(i) == i,
    decreases n - i,
{
    lemma_monotone_up(f, n, n, i);
    if i < n - 1 {
        lemma_monotone_fixed(f, n, i + 1);
        assert(f(i) < f(i + 1));
    }
}

/// Two actors' events in ascending order are the same where one holds what is
/// kept of the other.
pub proof fn lemma_kept_sorted_same(h: Seq<Event>, e: Seq<Event>)
    requires
        events_sorted(h),
        events_sorted(e),
        is_kept(h, e),
    ensures
        e == h,
{
    let g = |i: int| choose|j: int| 0 <= j < e.len() && key_eq(#[trigger] e[j], h[i]);
    let k = |j: int| choose|i: int| #[trigger] is_first_of_pair(h, i) && h[i] == e[j];
    assert forall|a: int| 0 <= a < h.len() implies 0 <= #[trigger] g(a) < e.len() && key_eq(
        e[g(a)],
        h[a],
    ) by {
        assert(has_key(e, h[a]));
    }
    assert forall|a: int, b: int| 0 <= a < b < h.len() implies #[trigger] g(a) < #[trigger] g(
        b,
    ) by {
        assert(key_lt(h[a], h[b]));
        assert(key_eq(e[g(a)], h[a]));
        assert(key_eq(e[g(b)], h[b]));
        if g(a) > g(b) {
            assert(key_lt(e[g(b)], e[g(a)]));
        }
    }
    assert forall|a: int| 0 <= a < e.len() implies 0 <= #[trigger] k(a) < h.len() && h[k(a)]
        == e[a] by {
        let i = choose|i: int| #[trigger] is_first_of_pair(h, i) && h[i] == e[a];
        assert(is_first_of_pair(h, i));
    }
    assert forall|a: int, b: int| 0 <= a < b < e.len() implies #[trigger] k(a) < #[trigger] k(
        b,
    ) by {
        assert(key_lt(e[a], e[b]));
        assert(h[k(a)] == e[a]);
        assert(h[k(b)] == e[b]);
        if k(a) > k(b) {
            assert(key_lt(h[k(b)], h[k(a)]));
        }
    }
    if h.len() > 0 {
        lemma_monotone_room(g, h.len() as int, e.len() as int);
    }
    if e.len() > 0 {
        lemma_monotone_room(k, e.len() as int, h.len() as int);
    }
    assert(e.len() == h.len());
    assert forall|j: int| 0 <= j < e.len() implies e[j] == h[j] by {
        lemma_monotone_fixed(k, e.len() as int, j);
        assert(h[k(j)] == e[j]);
    }
    assert(e =~= h);
}

/// The rows of a store, listed, are actors and entries that make a store.
pub proof fn lemma_listing_ok(
    s: EventStore,
    actors: Seq<(String, Actor)>,
    entries: Seq<(String, Vec<Event>)>,
)
    requires
        s.wf(),
        is_listing(s@, actors, entries),
    ensures
        model_ok(actors, entries),
{
    let rows = s@;
    assert forall|i: int, j: int| 0 <= i < j < rows.len() implies rows[i].0.identity@
        != rows[j].0.identity@ by {
        assert(ids_sorted(rows));
        lemma_id_irreflexive(rows[i].0.identity@);
    }
    assert forall|i: int| 0 <= i < actors.len() implies #[trigger] has_entry(
        entries,
        actors[i].1.identity@,
    ) by {
        assert(entries[i].0@ == actors[i].1.identity@);
    }
    assert forall|k: int| 0 <= k < entries.len() implies #[trigger] has_id(
        actors,
        entries[k].0@,
    ) by {
        assert(actors[k].1.identity@ == entries[k].0@);
    }
    assert forall|k: int| 0 <= k < entries.len() implies #[trigger] events_wf(entries[k].1@) by {
        assert(events_wf(rows[k].1));
    }
    assert forall|i: int, j: int| 0 <= i < j < actors.len() implies (#[trigger] actors[i]).1.identity@
        != (#[trigger] actors[j]).1.identity@ by {
        assert(rows[i].0.identity@ != rows[j].0.identity@);
    }
    assert forall|k: int, l: int| 0 <= k < l < entries.len() implies (#[trigger] entries[k]).0@ != (
    #[trigger] entries[l]).0@ by {
        assert(rows[k].0.identity@ != rows[l].0.identity@);
    }
}

/// A store that is listed and built again from the listing is the store that
/// it was: the same actors in the same rows, each with the same events.
pub proof fn lemma_rebuilt_same(
    s: EventStore,
    actors: Seq<(String, Actor)>,
    entries: Seq<(String, Vec<Event>)>,
    t: EventStore,
)
    requires
        s.wf(),
        is_listing(s@, actors, entries),
        is_rebuilt(actors, entries, t),
    ensures
        t@ == s@,
{
    let a = s@;
    let b = t@;
    let n = a.len() as int;
    let f = |i: int| choose|r: int| 0 <= r < b.len() && (#[trigger] b[r]).0 == a[i].0;
    assert forall|i: int| 0 <= i < n implies 0 <= #[trigger] f(i) < n && b[f(i)].0 == a[i].0 by {
        assert(holds_actor(b, actors[i].1));
    }
    assert forall|i: int, j: int| 0 <= i < j < n implies #[trigger] f(i) < #[trigger] f(j) by {
        assert(ids_sorted(a));
        assert(ids_sorted(b));
        let x = a[i].0.identity@;
        let y = a[j].0.identity@;
        assert(b[f(i)].0 == a[i].0);
        assert(b[f(j)].0 == a[j].0);
        lemma_id_irreflexive(x);
        if f(i) > f(j) {
            lemma_id_transitive(x, y, x);
        }
    }
    assert forall|i: int| 0 <= i < n implies b[i] == a[i] by {
        lemma_monotone_fixed(f, n, i);
        assert(b[i].0 == a[i].0);
        let id = a[i].0.identity@;
        assert(entries[i].0@ == id);
        assert(entry_kept(b, entries[i].0@, entries[i].1@));
        lemma_entry_kept(b, id, a[i].1);
        lemma_row_unique(b, i, row_of(b, id));
        assert(events_sorted(a[i].1));
        assert(events_sorted(b[i].1));
        lemma_kept_sorted_same(a[i].1, b[i].1);
    }
    assert(b =~= a);
}

/// A chart that is listed, built again and drawn under like options shows
/// what it showed before.
pub proof fn lemma_rebuilt_scene(
    s: EventStore,
    actors: Seq<(String, Actor)>,
    entries: Seq<(String, Vec<Event>)>,
    t: EventStore,
    oa: RenderOpts,
    ob: RenderOpts,
    sa: Scene,
    sb: Scene,
)
    requires
        s.wf(),
        is_listing(s@, actors, entries),
        is_rebuilt(actors, entries, t),
        same_opts(oa, ob),
        is_scene(oa, s@, sa),
        is_scene(ob, t@, sb),
    ensures
        same_scene(sa, sb),
{
    lemma_rebuilt_same(s, actors, entries, t);
    lemma_scene_determined(oa, ob, s@, t@, sa, sb);
}

/// Builds the store of actors and entries of events that were read, each
/// under its id, and says which rule of a store they break where they do.
pub fn rebuild(actors: Vec<(String, Actor)>, entries: Vec<(String, Vec<Event>)>) -> (r: Result<
    EventStore,
    ModelError,
>)
    ensures
        match r {
            Ok(store) => model_ok(actors@, entries@) && is_rebuilt(actors@, entries@, store),
            Err(e) => is_broken(e, actors@, entries@) && !model_ok(actors@, entries@),
        },
{
    if !ids_all_match(&actors) {
        return Err(ModelError::IdMismatch);
    }
    if !entries_all_distinct(&entries) {
        return Err(ModelError::DuplicateEntry);
    }
    let ghost given = actors@;
    let ghost listed = entries@;
    let mut store = EventStore::new();
    let mut rest = actors;
    let ghost mut n: int = 0;
    proof {
        assert(given.skip(0) =~= given);
    }
    while rest.len() > 0
        invariant
            0 <= n <= given.len(),
            given == actors@,
            listed == entries@,
            rest@ == given.skip(n),
            store.wf(),
            store@.len() == n,
            forall|r: int| 0 <= r < store@.len() ==> (#[trigger] store@[r]).1.len() == 0,
            forall|i: int| 0 <= i < n ==> #[trigger] holds_actor(store@, given[i].1),
            forall|r: int|
                0 <= r < store@.len() ==> #[trigger] has_id(given.take(n), store@[r].0.identity@),
            forall|i: int, j: int|
                0 <= i < j < n ==> (#[trigger] given[i]).1.identity@ != (
                #[trigger] given[j]).1.identity@,
        decreases rest@.len(),
    {
        let ghost before = store@;
        let (_, actor) = rest.remove(0);
        proof {
            assert(actor == given[n].1);
            assert(given.skip(n).remove(0) =~= given.skip(n + 1));
        }
        match store.register_actor(actor) {
            Ok(_) => {},
            Err(_) => {
                proof {
                    let r = choose|r: int|
                        0 <= r < before.len() && (#[trigger] before[r]).0.identity@
                            == actor.identity@;
                    assert(has_id(given.take(n), before[r].0.identity@));
                    let i = choose|i: int|
                        0 <= i < given.take(n).len() && (#[trigger] given.take(n)[i]).1.identity@
                            == before[r].0.identity@;
                    assert(given[i].1.identity@ == given[n].1.identity@);
                }
                return Err(ModelError::DuplicateActor);
            },
        }
        proof {
            let after = store@;
            let p = choose|p: int|
                0 <= p <= before.len() && after == before.insert(p, (actor, Seq::<Event>::empty()));
            assert forall|r: int| 0 <= r < after.len() implies (#[trigger] after[r]).1.len()
                == 0 by {
                if r != p {
                    let pr = if r < p { r } else { r - 1 };
                    assert(after[r] == before[pr]);
                }
            }
            assert forall|i: int| 0 <= i < n + 1 implies #[trigger] holds_actor(
                after,
                given[i].1,
            ) by {
                if i < n {
                    assert(holds_actor(before, given[i].1));
                    let r = choose|r: int| 0 <= r < before.len() && (#[trigger] before[r]).0 == given[i].1;
                    let nr = if r < p { r } else { r + 1 };
                    assert(after[nr] == before[r]);
                } else {
                    assert(after[p].0 == actor);
                }
            }
            assert forall|r: int| 0 <= r < after.len() implies #[trigger] has_id(
                given.take(n + 1),
                after[r].0.identity@,
            ) by {
                if r == p {
                    assert(given.take(n + 1)[n].1.identity@ == after[r].0.identity@);
                } else {
                    let pr = if r < p { r } else { r - 1 };
                    assert(after[r] == before[pr]);
                    assert(has_id(given.take(n), before[pr].0.identity@));
                    let i = choose|i: int|
                        0 <= i < given.take(n).len() && (#[trigger] given.take(n)[i]).1.identity@
                            == before[pr].0.identity@;
                    assert(given.take(n + 1)[i].1.identity@ == after[r].0.identity@);
                }
            }
            assert forall|i: int, j: int| 0 <= i < j < n + 1 implies (#[trigger] given[i]).1.identity@
                != (#[trigger] given[j]).1.identity@ by {
                if j == n {
                    assert(holds_actor(before, given[i].1));
                    let r = choose|r: int| 0 <= r < before.len() && (#[trigger] before[r]).0 == given[i].1;
                    if given[i].1.identity@ == actor.identity@ {
                        assert(rows_have(before, actor.identity@));
                    }
                }
            }
            n = n + 1;
        }
    }
    proof {
        assert(given.take(n) =~= given);
    }
    let ids = store.actors();
    let mut r: usize = 0;
    while r < ids.len()
        invariant
            r <= ids@.len(),
            ids@.len() == store@.len(),
            given == actors@,
            listed == entries@,
            forall|a: int| 0 <= a < ids@.len() ==> (#[trigger] ids@[a])@ == store@[a].0.identity@,
            forall|a: int| 0 <= a < store@.len() ==> #[trigger] has_id(given, store@[a].0.identity@),
            forall|a: int| 0 <= a < r ==> #[trigger] has_entry(listed, store@[a].0.identity@),
        decreases ids@.len() - r,
    {
        if !entry_for(&entries, &ids[r]) {
            proof {
                assert(has_id(given, store@[r as int].0.identity@));
                let i = choose|i: int|
                    0 <= i < given.len() && (#[trigger] given[i]).1.identity@
                        == store@[r as int].0.identity@;
                assert(!has_entry(listed, given[i].1.identity@));
            }
            return Err(ModelError::MissingEntry);
        }
        r += 1;
    }
    let ghost base = store@;
    proof {
        assert forall|i: int| 0 <= i < given.len() implies #[trigger] has_entry(
            listed,
            given[i].1.identity@,
        ) by {
            assert(holds_actor(base, given[i].1));
            let a = choose|a: int| 0 <= a < base.len() && (#[trigger] base[a]).0 == given[i].1;
            assert(has_entry(listed, base[a].0.identity@));
        }
        assert(listed.skip(0) =~= listed);
    }
    let mut left = entries;
    let ghost mut k: int = 0;
    while left.len() > 0
        invariant
            0 <= k <= listed.len(),
            given == actors@,
            listed == entries@,
            left@ == listed.skip(k),
            entries_distinct(listed),
            store.wf(),
            store@.len() == base.len(),
            forall|a: int| 0 <= a < base.len() ==> (#[trigger] store@[a]).0 == base[a].0,
            forall|a: int| 0 <= a < base.len() ==> #[trigger] has_id(given, base[a].0.identity@),
            forall|i: int| 0 <= i < given.len() ==> #[trigger] holds_actor(base, given[i].1),
            forall|a: int|
                0 <= a < base.len() && store@[a].1.len() > 0 ==> #[trigger] has_entry(
                    listed.take(k),
                    base[a].0.identity@,
                ),
            forall|a: int| 0 <= a < k ==> #[trigger] rows_have(base, listed[a].0@),
            forall|a: int| 0 <= a < k ==> #[trigger] events_wf(listed[a].1@),
            forall|a: int| 0 <= a < k ==> #[trigger] entry_kept(store@, listed[a].0@, listed[a].1@),
        decreases left@.len(),
    {
        let ghost prior = store@;
        let (id, events) = left.remove(0);
        proof {
            assert(id == listed[k].0);
            assert(events == listed[k].1);
            assert(listed.skip(k).remove(0) =~= listed.skip(k + 1));
        }
        if store.find(&id).is_none() {
            proof {
                if has_id(given, listed[k].0@) {
                    let i = choose|i: int|
                        0 <= i < given.len() && (#[trigger] given[i]).1.identity@ == listed[k].0@;
                    assert(holds_actor(base, given[i].1));
                    let a = choose|a: int| 0 <= a < base.len() && (#[trigger] base[a]).0 == given[i].1;
                    assert(prior[a].0.identity@ == id@);
                    assert(rows_have(prior, id@));
                }
            }
            return Err(ModelError::UnknownActor);
        }
        if !all_wf(&events) {
            assert(!events_wf(listed[k].1@));
            return Err(ModelError::BadEvent);
        }
        let ghost row = row_of(prior, id@);
        store.add_events(&id, events);
        proof {
            let after = store@;
            assert(prior[row].0.identity@ == id@);
            assert(after[row].0.identity@ == id@);
            lemma_row_unique(after, row, row_of(after, id@));
            assert(rows_have(base, id@)) by {
                assert(base[row].0.identity@ == id@);
            }
            if prior[row].1.len() > 0 {
                assert(has_entry(listed.take(k), base[row].0.identity@));
                let a = choose|a: int|
                    0 <= a < listed.take(k).len() && (#[trigger] listed.take(k)[a]).0@
                        == base[row].0.identity@;
                assert(listed[a].0@ == listed[k].0@);
                assert(false);
            }
            let states = choose|states: Seq<Seq<Event>>|
                {
                    &&& #[trigger] is_run(listed[k].1@, states)
                    &&& states[0] == prior[row].1
                    &&& states.last() == after[row].1
                };
            assert(is_history(listed[k].1@, states));
            assert(entry_kept(after, listed[k].0@, listed[k].1@));
            assert forall|a: int| 0 <= a < k + 1 implies #[trigger] entry_kept(
                after,
                listed[a].0@,
                listed[a].1@,
            ) by {
                if a < k {
                    assert(entry_kept(prior, listed[a].0@, listed[a].1@));
                    assert(rows_have(base, listed[a].0@));
                    let ra = choose|ra: int|
                        0 <= ra < base.len() && (#[trigger] base[ra]).0.identity@ == listed[a].0@;
                    assert(prior[ra].0.identity@ == listed[a].0@);
                    assert(after[ra].0.identity@ == listed[a].0@);
                    lemma_row_unique(prior, ra, row_of(prior, listed[a].0@));
                    lemma_row_unique(after, ra, row_of(after, listed[a].0@));
                    assert(listed[a].0@ != listed[k].0@);
                    assert(ra != row);
                    assert(after[ra] == prior[ra]);
                    let st = choose|st: Seq<Seq<Event>>|
                        #[trigger] is_history(listed[a].1@, st) && st.last() == prior[ra].1;
                    assert(is_history(listed[a].1@, st) && st.last() == after[ra].1);
                }
            }
            assert forall|a: int| 0 <= a < base.len() && after[a].1.len() > 0 implies #[trigger] has_entry(
                listed.take(k + 1),
                base[a].0.identity@,
            ) by {
                if a == row {
                    assert(listed.take(k + 1)[k].0@ == base[a].0.identity@);
                } else {
                    assert(after[a] == prior[a]);
                    assert(has_entry(listed.take(k), base[a].0.identity@));
                    let b = choose|b: int|
                        0 <= b < listed.take(k).len() && (#[trigger] listed.take(k)[b]).0@
                            == base[a].0.identity@;
                    assert(listed.take(k + 1)[b].0@ == base[a].0.identity@);
                }
            }
            k = k + 1;
        }
    }
    proof {
        assert forall|a: int| 0 <= a < listed.len() implies #[trigger] has_id(
            given,
            listed[a].0@,
        ) by {
            assert(rows_have(base, listed[a].0@));
            let ra = choose|ra: int|
                0 <= ra < base.len() && (#[trigger] base[ra]).0.identity@ == listed[a].0@;
            assert(has_id(given, base[ra].0.identity@));
        }
        assert forall|i: int| 0 <= i < given.len() implies #[trigger] holds_actor(
            store@,
            given[i].1,
        ) by {
            assert(holds_actor(base, given[i].1));
            let a = choose|a: int| 0 <= a < base.len() && (#[trigger] base[a]).0 == given[i].1;
            assert(store@[a].0 == given[i].1);
        }
    }
    Ok(store)
}

} // verus!
