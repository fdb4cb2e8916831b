use vstd::prelude::*;
use crate::bounds::event_at;
use crate::bounds::same_times;
use crate::event::Actor;
use crate::event::Event;
use crate::event::EventKind;
use crate::event::EventStore;

verus! {

/// Row `a` gets its lane above row `b`: its first event starts earlier, or at
/// the same time while `a` is the earlier row.
pub open spec fn lane_before(rows: Seq<(Actor, Seq<Event>)>, a: int, b: int) -> bool {
    let sa = rows[a].1[0].spec_start();
    let sb = rows[b].1[0].spec_start();
    sa < sb || (sa == sb && a < b)
}

/// `order` lists, from the top lane down, the rows below `limit` that have
/// an event: each of them once, by the start of their first events, rows
/// that start together in the order of the rows.
pub open spec fn is_lane_order(rows: Seq<(Actor, Seq<Event>)>, limit: int, order: Seq<usize>) -> bool {
    &&& forall|k: int|
        0 <= k < order.len() ==> (#[trigger] order[k]) < limit && rows[order[k] as int].1.len() > 0
    &&& forall|k: int, l: int|
        0 <= k < l < order.len() ==> lane_before(
            rows,
            (#[trigger] order[k]) as int,
            (#[trigger] order[l]) as int,
        )
    &&& forall|i: int|
        0 <= i < limit && (#[trigger] rows[i]).1.len() > 0 ==> order.contains(i as usize)
}

/// The rows of the actors that have an event, from the top lane down.
pub fn lane_order(store: &EventStore) -> (order: Vec<usize>)
    ensures
        is_lane_order(store@, store@.len() as int, order@),
{
    let mut order: Vec<usize> = Vec::new();
    let n: usize = store.actor_count();
    let mut i: usize = 0;
    while i < n
        invariant
            i <= n,
            n == store@.len(),
            is_lane_order(store@, i as int, order@),
        decreases n - i,
    {
        let (_, events) = store.row(i);
        if events.len() > 0 {
            let s: i64 = events[0].start_time();
            let ghost before = order@;
            let mut p: usize = 0;
            while p < order.len() && store.row(order[p]).1[0].start_time() <= s
                invariant
                    p <= order@.len(),
                    order@ == before,
                    i < n,
                    n == store@.len(),
                    is_lane_order(store@, i as int, before),
                    forall|k: int|
                        0 <= k < p ==> store@[(#[trigger] before[k]) as int].1[0].spec_start() <= s,
                decreases order@.len() - p,
            {
                p += 1;
            }
            order.insert(p, i);
            proof {
                let after = order@;
                assert(after == before.insert(p as int, i));
                assert forall|k: int, l: int| 0 <= k < l < after.len() implies lane_before(
                    store@,
                    (#[trigger] after[k]) as int,
                    (#[trigger] after[l]) as int,
                ) by {
                    let pk = if k < p { k } else { k - 1 };
                    let pl = if l < p { l } else { l - 1 };
                    if k != p && l != p {
                        assert(lane_before(store@, before[pk] as int, before[pl] as int));
                    } else if k == p {
                        if pl > p {
                            assert(lane_before(store@, before[p as int] as int, before[pl] as int));
                        }
                    } else {
                        assert(before[pk] < i);
                    }
                }
                assert forall|r: int|
                    0 <= r < i + 1 && (#[trigger] store@[r]).1.len() > 0 implies after.contains(
                    r as usize,
                ) by {
                    if r == i {
                        assert(after[p as int] == i);
                    } else {
                        assert(before.contains(r as usize));
                        let k = choose|k: int| 0 <= k < before.len() && before[k] == r as usize;
                        let nk = if k < p { k } else { k + 1 };
                        assert(after[nk] == r as usize);
                    }
                }
                assert forall|k: int| 0 <= k < after.len() implies (#[trigger] after[k]) < i + 1
                    && store@[after[k] as int].1.len() > 0 by {
                    if k != p {
                        let pk = if k < p { k } else { k - 1 };
                        assert(after[k] == before[pk]);
                    }
                }
            }
        }
        i += 1;
    }
    order
}

/// What is drawn for one event, in microseconds.
#[derive(Debug, PartialEq, Eq, Structural, Clone, Copy)]
pub enum Shape {
    /// A span: the place of the event among its actor's events, where the
    /// rectangle starts, how wide it is, and whether the span is open-ended.
    Bar { event: usize, start: i64, width: i128, open: bool },
    /// An instant: a thin marker at one time.
    Marker { event: usize, at: i64 },
}

#[derive(Debug, PartialEq, Eq, Structural, Clone, Copy)]
pub enum LabelSide {
    /// The text starts at the anchor and grows to the right.
    Left,
    /// The text ends at the anchor and grows to the left.
    Right,
}

/// Where the name of an actor is drawn.
#[derive(Debug, PartialEq, Eq, Structural, Clone, Copy)]
pub struct Label {
    pub at: i64,
    pub side: LabelSide,
}

/// One actor's lane: its row in the store, a shape for each of its events, in
/// their order, and its label.
#[derive(Debug, PartialEq, Eq)]
pub struct Lane {
    pub row: usize,
    pub shapes: Vec<Shape>,
    pub label: Option<Label>,
}

/// The shape of `event`, the `j`th of its actor, in a box that begins at
/// `first` and is `box_width` wide. An open-ended span reaches the right edge
/// of the box.
pub open spec fn shape_of(event: Event, j: int, first: int, box_width: int) -> Shape {
    match event.kind {
        EventKind::Span(start, Some(duration)) => Shape::Bar {
            event: j as usize,
            start,
            width: duration as i128,
            open: false,
        },
        EventKind::Span(start, None) => Shape::Bar {
            event: j as usize,
            start,
            width: (first + box_width - start) as i128,
            open: true,
        },
        EventKind::Instant(at) => Shape::Marker { event: j as usize, at },
    }
}

pub open spec fn is_span(event: Event) -> bool {
    event.kind is Span
}

/// The side of a label anchored at `at`: left where the anchor lies before
/// the middle of the box.
pub open spec fn side_of(at: int, first: int, box_width: int) -> LabelSide {
    if 2 * at < 2 * first + box_width {
        LabelSide::Left
    } else {
        LabelSide::Right
    }
}

/// `label` is the label of an actor with these events: it is anchored at the
/// start of the first span, and an actor without a span has none.
pub open spec fn is_label(events: Seq<Event>, first: int, box_width: int, label: Option<Label>) -> bool {
    match label {
        None => forall|j: int| 0 <= j < events.len() ==> !is_span(#[trigger] events[j]),
        Some(l) => exists|k: int|
            {
                &&& 0 <= k < events.len()
                &&& is_span(#[trigger] events[k])
                &&& forall|j: int| 0 <= j < k ==> !is_span(#[trigger] events[j])
                &&& l.at == events[k].spec_start()
                &&& l.side == side_of(l.at as int, first, box_width)
            },
    }
}

/// `lane` holds what is drawn for an actor with these events: the shape of
/// each event, in their order, and the label.
pub open spec fn is_lane(events: Seq<Event>, first: int, box_width: int, lane: Lane) -> bool {
    &&& lane.shapes@.len() == events.len()
    &&& forall|j: int|
        0 <= j < events.len() ==> (#[trigger] lane.shapes@[j]) == shape_of(
            events[j],
            j,
            first,
            box_width,
        )
    &&& is_label(events, first, box_width, lane.label)
}

/// Lays out the lane of the actor in row `row`, whose events are `events`, in
/// a box that begins at `first` and is `box_width` microseconds wide.
pub fn render_actor(row: usize, events: &Vec<Event>, first: i64, box_width: u64) -> (lane: Lane)
    ensures
        lane.row == row,
        is_lane(events@, first as int, box_width as int, lane),
{
    let mut shapes: Vec<Shape> = Vec::new();
    let mut label: Option<Label> = None;
    let right: i128 = (first as i128) + (box_width as i128);
    let mut j: usize = 0;
    while j < events.len()
        invariant
            j <= events@.len(),
            right == first + box_width,
            shapes@.len() == j,
            forall|k: int|
                0 <= k < j ==> (#[trigger] shapes@[k]) == shape_of(
                    events@[k],
                    k,
                    first as int,
                    box_width as int,
                ),
            is_label(events@.take(j as int), first as int, box_width as int, label),
        decreases events@.len() - j,
    {
        let ghost seen = events@.take(j as int);
        let ghost grown = events@.take(j + 1);
        let ghost label0 = label;
        let shape = match events[j].kind {
            EventKind::Span(start, Some(duration)) => Shape::Bar {
                event: j,
                start,
                width: duration as i128,
                open: false,
            },
            EventKind::Span(start, None) => Shape::Bar {
                event: j,
                start,
                width: right - (start as i128),
                open: true,
            },
            EventKind::Instant(at) => Shape::Marker { event: j, at },
        };
        match (label, shape) {
            (None, Shape::Bar { event: _, start, width: _, open: _ }) => {
                let side = if 2 * (start as i128) < (first as i128) + right {
                    LabelSide::Left
                } else {
                    LabelSide::Right
                };
                label = Some(Label { at: start, side });
            },
            _ => {},
        }
        shapes.push(shape);
        proof {
            assert(grown[j as int] == events@[j as int]);
            assert forall|k: int| 0 <= k < j implies grown[k] == seen[k] by {}
            match label0 {
                Some(l) => {
                    let k = choose|k: int|
                        {
                            &&& 0 <= k < seen.len()
                            &&& is_span(#[trigger] seen[k])
                            &&& forall|m: int| 0 <= m < k ==> !is_span(#[trigger] seen[m])
                            &&& l.at == seen[k].spec_start()
                            &&& l.side == side_of(l.at as int, first as int, box_width as int)
                        };
                    assert(is_span(grown[k]));
                    assert forall|m: int| 0 <= m < k implies !is_span(#[trigger] grown[m]) by {
                        assert(grown[m] == seen[m]);
                    }
                },
                None => {
                    assert forall|m: int| 0 <= m < j implies !is_span(#[trigger] grown[m]) by {
                        assert(grown[m] == seen[m]);
                    }
                    if is_span(events@[j as int]) {
                        assert(is_span(grown[j as int]));
                    }
                },
            }
        }
        j += 1;
    }
    proof {
        assert(events@.take(j as int) =~= events@);
    }
    Lane { row, shapes, label }
}

/// The width of an open-ended span depends on its start and on the box alone:
/// it is the distance from its start to the right edge of the box.
pub proof fn lemma_open_span_width(event: Event, j: int, first: int, box_width: int)
    requires
        event.kind matches EventKind::Span(_, None),
        i128::MIN <= first + box_width - event.spec_start() <= i128::MAX,
    ensures
        shape_of(event, j, first, box_width) matches Shape::Bar { start, width, open, .. }
            && open && start == event.spec_start() && width == (first + box_width) - start,
{
}

/// Up to place `k`, two lane orders of rows with the same times agree.
pub proof fn lemma_lane_order_prefix(
    a: Seq<(Actor, Seq<Event>)>,
    b: Seq<(Actor, Seq<Event>)>,
    oa: Seq<usize>,
    ob: Seq<usize>,
    k: int,
)
    requires
        same_times(a, b),
        is_lane_order(a, a.len() as int, oa),
        is_lane_order(b, b.len() as int, ob),
        0 <= k <= oa.len(),
        k <= ob.len(),
    ensures
        forall|i: int| 0 <= i < k ==> oa[i] == ob[i],
    decreases k,
{
    if k > 0 {
        lemma_lane_order_prefix(a, b, oa, ob, k - 1);
        let x = oa[k - 1];
        let y = ob[k - 1];
        assert(a[x as int].1.len() > 0);
        assert(b[y as int].1.len() > 0);
        assert(b[x as int].1.len() == a[x as int].1.len());
        assert(a[y as int].1.len() == b[y as int].1.len());
        assert(ob.contains(x));
        assert(oa.contains(y));
        let m = choose|m: int| 0 <= m < ob.len() && ob[m] == x;
        let n = choose|n: int| 0 <= n < oa.len() && oa[n] == y;
        assert(event_at(a, x as int, 0).kind == event_at(b, x as int, 0).kind);
        assert(event_at(a, y as int, 0).kind == event_at(b, y as int, 0).kind);
        if m < k - 1 {
            assert(oa[m] == ob[m]);
            assert(lane_before(a, oa[m] as int, oa[k - 1] as int));
            assert(false);
        }
        if n < k - 1 {
            assert(oa[n] == ob[n]);
            assert(lane_before(b, ob[n] as int, ob[k - 1] as int));
            assert(false);
        }
        if m > k - 1 && n > k - 1 {
            assert(lane_before(b, ob[k - 1] as int, ob[m] as int));
            assert(lane_before(a, oa[k - 1] as int, oa[n] as int));
            assert(false);
        }
    }
}

/// The order of the lanes is decided by the times of the events.
pub proof fn lemma_lane_order_determined(
    a: Seq<(Actor, Seq<Event>)>,
    b: Seq<(Actor, Seq<Event>)>,
    oa: Seq<usize>,
    ob: Seq<usize>,
)
    requires
        same_times(a, b),
        is_lane_order(a, a.len() as int, oa),
        is_lane_order(b, b.len() as int, ob),
    ensures
        oa == ob,
{
    let k = if oa.len() <= ob.len() { oa.len() as int } else { ob.len() as int };
    lemma_lane_order_prefix(a, b, oa, ob, k);
    if oa.len() < ob.len() {
        let y = ob[k];
        assert(b[y as int].1.len() > 0);
        assert(a[y as int].1.len() == b[y as int].1.len());
        assert(oa.contains(y));
        let n = choose|n: int| 0 <= n < oa.len() && oa[n] == y;
        assert(ob[n] == oa[n]);
        assert(lane_before(b, ob[n] as int, ob[k] as int));
        assert(false);
    }
    if ob.len() < oa.len() {
        let x = oa[k];
        assert(a[x as int].1.len() > 0);
        assert(b[x as int].1.len() == a[x as int].1.len());
        assert(ob.contains(x));
        let m = choose|m: int| 0 <= m < ob.len() && ob[m] == x;
        assert(oa[m] == ob[m]);
        assert(lane_before(a, oa[m] as int, oa[k] as int));
        assert(false);
    }
    assert(oa =~= ob);
}

/// What is drawn in a lane is decided by the times of the actor's events and
/// by the box.
pub proof fn lemma_lane_determined(
    ea: Seq<Event>,
    eb: Seq<Event>,
    first: int,
    box_width: int,
    la: Lane,
    lb: Lane,
)
    requires
        ea.len() == eb.len(),
        forall|j: int| 0 <= j < ea.len() ==> (#[trigger] ea[j]).kind == eb[j].kind,
        is_lane(ea, first, box_width, la),
        is_lane(eb, first, box_width, lb),
    ensures
        la.shapes@ == lb.shapes@,
        la.label == lb.label,
{
    assert forall|j: int| 0 <= j < ea.len() implies la.shapes@[j] == lb.shapes@[j] by {
        assert(ea[j].kind == eb[j].kind);
    }
    assert(la.shapes@ =~= lb.shapes@);
    match (la.label, lb.label) {
        (Some(x), Some(y)) => {
            let ka = choose|k: int|
                {
                    &&& 0 <= k < ea.len()
                    &&& is_span(#[trigger] ea[k])
                    &&& forall|j: int| 0 <= j < k ==> !is_span(#[trigger] ea[j])
                    &&& x.at == ea[k].spec_start()
                    &&& x.side == side_of(x.at as int, first, box_width)
                };
            let kb = choose|k: int|
                {
                    &&& 0 <= k < eb.len()
                    &&& is_span(#[trigger] eb[k])
                    &&& forall|j: int| 0 <= j < k ==> !is_span(#[trigger] eb[j])
                    &&& y.at == eb[k].spec_start()
                    &&& y.side == side_of(y.at as int, first, box_width)
                };
            assert(ea[ka].kind == eb[ka].kind);
            assert(ea[kb].kind == eb[kb].kind);
            if ka < kb {
                assert(!is_span(eb[ka]));
            }
            if kb < ka {
                assert(!is_span(ea[kb]));
            }
            assert(x.at == y.at);
        },
        (Some(x), None) => {
            let ka = choose|k: int|
                {
                    &&& 0 <= k < ea.len()
                    &&& is_span(#[trigger] ea[k])
                    &&& forall|j: int| 0 <= j < k ==> !is_span(#[trigger] ea[j])
                    &&& x.at == ea[k].spec_start()
                    &&& x.side == side_of(x.at as int, first, box_width)
                };
            assert(ea[ka].kind == eb[ka].kind);
            assert(!is_span(eb[ka]));
        },
        (None, Some(y)) => {
            let kb = choose|k: int|
                {
                    &&& 0 <= k < eb.len()
                    &&& is_span(#[trigger] eb[k])
                    &&& forall|j: int| 0 <= j < k ==> !is_span(#[trigger] eb[j])
                    &&& y.at == eb[k].spec_start()
                    &&& y.side == side_of(y.at as int, first, box_width)
                };
            assert(ea[kb].kind == eb[kb].kind);
            assert(!is_span(ea[kb]));
        },
        (None, None) => {},
    }
}

} // verus!
