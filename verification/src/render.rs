use vstd::prelude::*;
use crate::bounds::first_event_time;
use crate::bounds::is_first_time;
use crate::bounds::is_last_time;
use crate::bounds::last_event_time;
use crate::bounds::lemma_bounds_ordered;
use crate::bounds::lemma_first_time_determined;
use crate::bounds::lemma_last_time_determined;
use crate::bounds::event_at;
use crate::bounds::same_times;
use crate::event::Actor;
use crate::event::Event;
use crate::event::EventStore;
use crate::grid::is_grid;
use crate::grid::lemma_grid_determined;
use crate::grid::GridLine;
use crate::lanes::is_lane;
use crate::lanes::is_lane_order;
use crate::lanes::lane_order;
use crate::lanes::lemma_lane_determined;
use crate::lanes::lemma_lane_order_determined;
use crate::lanes::render_actor;
use crate::lanes::Lane;

verus! {

/// The scale of the time axis and the heading of the chart.
#[derive(Debug, PartialEq, Eq)]
pub struct RenderOpts {
    /// Microseconds between two major grid lines.
    pub us_per_line: u64,
    /// The number of steps into which the stretch between two major lines is divided.
    pub sublines: u32,
    /// Microseconds that one pixel stands for.
    pub us_per_pixel: u32,
    pub heading: String,
}

impl RenderOpts {
    /// The grid has a positive step: there is at least one subline step, and
    /// a major stretch is at least as long as the number of steps.
    pub open spec fn grid_ok(&self) -> bool {
        0 < self.sublines && self.sublines <= self.us_per_line
    }

    /// Whether a grid can be drawn with these options.
    pub fn has_grid(&self) -> (r: bool)
        ensures
            r == self.grid_ok(),
    {
        0 < self.sublines && (self.sublines as u64) <= self.us_per_line
    }

    /// Microseconds between two neighbouring grid lines.
    pub open spec fn spec_step(&self) -> int {
        self.us_per_line as int / self.sublines as int
    }
}

impl Default for RenderOpts {
    fn default() -> (o: RenderOpts)
        ensures
            o.us_per_line == 1_000_000,
            o.sublines == 10,
            o.us_per_pixel == 10_000,
            o.heading@ == Seq::<char>::empty(),
            o.grid_ok(),
    {
        RenderOpts {
            us_per_line: 1_000_000,
            sublines: 10,
            us_per_pixel: 10_000,
            heading: String::new(),
        }
    }
}

#[derive(Debug)]
pub struct RendererBuilder {
    pub opts: RenderOpts,
}

impl Default for RendererBuilder {
    fn default() -> (b: RendererBuilder)
        ensures
            b.opts.us_per_line == 1_000_000,
            b.opts.sublines == 10,
            b.opts.us_per_pixel == 10_000,
            b.opts.heading@ == Seq::<char>::empty(),
    {
        RendererBuilder { opts: RenderOpts::default() }
    }
}

impl RendererBuilder {
    pub fn build(self) -> (r: Renderer)
        ensures
            r.opts == self.opts,
    {
        Renderer { opts: self.opts }
    }

    pub fn heading(self, heading: &str) -> (b: RendererBuilder)
        ensures
            b.opts.heading@ == heading@,
            b.opts.us_per_line == self.opts.us_per_line,
            b.opts.sublines == self.opts.sublines,
            b.opts.us_per_pixel == self.opts.us_per_pixel,
    {
        let mut b = self;
        b.opts.heading = heading.to_owned();
        b
    }
}

#[derive(Debug, PartialEq, Eq)]
pub struct Renderer {
    pub opts: RenderOpts,
}

impl Default for Renderer {
    fn default() -> (r: Renderer)
        ensures
            r.opts.us_per_line == 1_000_000,
            r.opts.sublines == 10,
            r.opts.us_per_pixel == 10_000,
            r.opts.heading@ == Seq::<char>::empty(),
    {
        Renderer { opts: RenderOpts::default() }
    }
}

/// The lines of `text`, as `str::lines` splits it.
pub uninterp spec fn text_lines(text: Seq<char>) -> Seq<Seq<char>>;

/// Calls `str::lines` and collects what it yields. The contract says that the
/// strings handed back are, in order, the lines of `text`.
#[verifier::external_body]
fn split_lines(text: &str) -> (lines: Vec<String>)
    ensures
        lines@.len() == text_lines(text@).len(),
        forall|i: int| 0 <= i < lines@.len() ==> (#[trigger] lines@[i])@ == text_lines(text@)[i],
{
    text.lines().map(String::from).collect()
}

/// `lines` are the lines of `text`.
pub open spec fn is_heading(text: Seq<char>, lines: Seq<String>) -> bool {
    &&& lines.len() == text_lines(text).len()
    &&& forall|i: int| 0 <= i < lines.len() ==> (#[trigger] lines[i])@ == text_lines(text)[i]
}

/// The style sheet that every chart carries.
pub const STYLESHEET: &'static str = "
        rect.span      { opacity: 0.7; }
        g.actor:hover rect { opacity: 1.0; }
        path           { stroke: rgb(64,64,64); stroke-width: 1; }
        path.subline   { stroke: rgb(224,224,224); stroke-width: 0.7; }
        text           { font-family: Verdana, Helvetica; font-size: 14px; }
        text.left      { font-family: Verdana, Helvetica; font-size: 14px; text-anchor: start; }
        text.right     { font-family: Verdana, Helvetica; font-size: 14px; text-anchor: end; }
        text.label     { font-size: 10px; }";

/// A chart laid out on the time axis, in microseconds.
#[derive(Debug, PartialEq, Eq)]
pub struct Scene {
    /// Where the box begins.
    pub first_time: i64,
    /// Where the events end.
    pub last_time: i64,
    /// The width of the box.
    pub box_width: u64,
    /// The lines of the heading, from the top.
    pub heading: Vec<String>,
    /// The time grid, from left to right.
    pub grid: Vec<GridLine>,
    /// The lanes, from the top.
    pub lanes: Vec<Lane>,
}

/// `lanes` are the lanes of the actors that have an event, in lane order, each
/// laid out in the box that begins at `first` and is `box_width` wide.
pub open spec fn is_lanes(
    rows: Seq<(Actor, Seq<Event>)>,
    first: int,
    box_width: int,
    lanes: Seq<Lane>,
) -> bool {
    &&& is_lane_order(rows, rows.len() as int, lanes.map_values(|lane: Lane| lane.row))
    &&& forall|k: int|
        0 <= k < lanes.len() ==> is_lane(
            rows[(#[trigger] lanes[k]).row as int].1,
            first,
            box_width,
            lanes[k],
        )
}

/// `scene` is the chart of `rows` under `opts`: the box reaches from the
/// first time to the last, and the heading, the grid and the lanes are laid
/// out for that box.
pub open spec fn is_scene(opts: RenderOpts, rows: Seq<(Actor, Seq<Event>)>, scene: Scene) -> bool {
    &&& is_first_time(rows, scene.first_time as int)
    &&& is_last_time(rows, scene.last_time as int)
    &&& scene.box_width == scene.last_time - scene.first_time
    &&& is_heading(opts.heading@, scene.heading@)
    &&& is_grid(opts, scene.first_time as int, scene.last_time as int, scene.grid@)
    &&& is_lanes(rows, scene.first_time as int, scene.box_width as int, scene.lanes@)
}

/// Two options that lay out alike: the same scale, grid and heading.
pub open spec fn same_opts(a: RenderOpts, b: RenderOpts) -> bool {
    &&& a.us_per_line == b.us_per_line
    &&& a.sublines == b.sublines
    &&& a.us_per_pixel == b.us_per_pixel
    &&& a.heading@ == b.heading@
}

/// Two scenes that show the same: the same box, heading, grid and lanes.
pub open spec fn same_scene(a: Scene, b: Scene) -> bool {
    &&& a.first_time == b.first_time
    &&& a.last_time == b.last_time
    &&& a.box_width == b.box_width
    &&& a.grid@ == b.grid@
    &&& a.heading@.len() == b.heading@.len()
    &&& forall|i: int| 0 <= i < a.heading@.len() ==> (#[trigger] a.heading@[i])@ == b.heading@[i]@
    &&& a.lanes@.len() == b.lanes@.len()
    &&& forall|k: int|
        0 <= k < a.lanes@.len() ==> {
            &&& (#[trigger] a.lanes@[k]).row == b.lanes@[k].row
            &&& a.lanes@[k].shapes@ == b.lanes@[k].shapes@
            &&& a.lanes@[k].label == b.lanes@[k].label
        }
}

/// A chart that is stored and read back is drawn as before: the scene is
/// decided by the options and by the times of the events. Two scenes of
/// like options and of rows with the same times show the same.
pub proof fn lemma_scene_determined(
    oa: RenderOpts,
    ob: RenderOpts,
    a: Seq<(Actor, Seq<Event>)>,
    b: Seq<(Actor, Seq<Event>)>,
    sa: Scene,
    sb: Scene,
)
    requires
        same_opts(oa, ob),
        same_times(a, b),
        is_scene(oa, a, sa),
        is_scene(ob, b, sb),
    ensures
        same_scene(sa, sb),
{
    lemma_first_time_determined(a, b, sa.first_time as int, sb.first_time as int);
    lemma_last_time_determined(a, b, sa.last_time as int, sb.last_time as int);
    lemma_grid_determined(oa, ob, sa.first_time as int, sa.last_time as int, sa.grid@, sb.grid@);
    let ra = sa.lanes@.map_values(|lane: Lane| lane.row);
    let rb = sb.lanes@.map_values(|lane: Lane| lane.row);
    lemma_lane_order_determined(a, b, ra, rb);
    assert(sa.lanes@.len() == ra.len());
    assert(sb.lanes@.len() == rb.len());
    assert forall|k: int| 0 <= k < sa.lanes@.len() implies {
        &&& (#[trigger] sa.lanes@[k]).row == sb.lanes@[k].row
        &&& sa.lanes@[k].shapes@ == sb.lanes@[k].shapes@
        &&& sa.lanes@[k].label == sb.lanes@[k].label
    } by {
        assert(ra[k] == sa.lanes@[k].row);
        assert(rb[k] == sb.lanes@[k].row);
        let r = sa.lanes@[k].row as int;
        assert(r < a.len());
        assert(a[r].1.len() == b[r].1.len());
        assert forall|j: int| 0 <= j < a[r].1.len() implies (#[trigger] a[r].1[j]).kind
            == b[r].1[j].kind by {
            assert(event_at(a, r, j).kind == event_at(b, r, j).kind);
        }
        lemma_lane_determined(
            a[r].1,
            b[r].1,
            sa.first_time as int,
            sa.box_width as int,
            sa.lanes@[k],
            sb.lanes@[k],
        );
    }
}

impl Renderer {
    /// The style sheet of the chart.
    pub fn render_css(&self) -> (css: String)
        ensures
            css@ == STYLESHEET@,
    {
        STYLESHEET.to_owned()
    }

    /// The lines of the heading, from the top.
    pub fn render_heading(&self) -> (lines: Vec<String>)
        ensures
            is_heading(self.opts.heading@, lines@),
    {
        split_lines(self.opts.heading.as_str())
    }

    /// Lays out the chart of `events`: the box, the heading, the grid and a
    /// lane for each actor that has an event.
    pub fn render(&self, events: &EventStore) -> (scene: Scene)
        requires
            events.wf(),
            self.opts.grid_ok(),
        ensures
            is_scene(self.opts, events@, scene),
    {
        let first_time: i64 = first_event_time(events);
        let last_time: i64 = last_event_time(events);
        proof {
            lemma_bounds_ordered(events@, first_time as int, last_time as int);
        }
        let box_width: u64 = ((last_time as i128) - (first_time as i128)) as u64;
        let order = lane_order(events);
        let mut lanes: Vec<Lane> = Vec::new();
        let mut k: usize = 0;
        while k < order.len()
            invariant
                k <= order@.len(),
                lanes@.len() == k,
                is_lane_order(events@, events@.len() as int, order@),
                forall|l: int| 0 <= l < k ==> (#[trigger] lanes@[l]).row == order@[l],
                forall|l: int|
                    0 <= l < k ==> is_lane(
                        events@[(#[trigger] lanes@[l]).row as int].1,
                        first_time as int,
                        box_width as int,
                        lanes@[l],
                    ),
            decreases order@.len() - k,
        {
            let row: usize = order[k];
            let (_, actor_events) = events.row(row);
            lanes.push(render_actor(row, actor_events, first_time, box_width));
            k += 1;
        }
        proof {
            assert(lanes@.map_values(|lane: Lane| lane.row) =~= order@);
        }
        Scene {
            first_time,
            last_time,
            box_width,
            heading: self.render_heading(),
            grid: self.render_lines(first_time, last_time),
            lanes,
        }
    }
}

} // verus!
