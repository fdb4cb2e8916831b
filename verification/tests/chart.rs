use chartr::codec::{decode_comment, embed, CodecError};
use chartr::event::{Actor, Event, EventKind, EventStore};
use chartr::load;
use chartr::model::{rebuild, ModelError};
use serde_json::Value;
use chartr::attrs::{merge_field, merge_fields, merged_attribute, span_attributes};
use chartr::bounds::{first_event_time, last_event_time};
use chartr::grid::{floor_rem, render_line_time, to_decimal, GridLine};
use chartr::lanes::{lane_order, render_actor, Label, LabelSide, Shape};
use chartr::render::{RenderOpts, Renderer, RendererBuilder, STYLESHEET};
use std::time::Duration;

fn span(start: i64, duration: Option<u32>, value: &str) -> Event {
    Event {
        fields: Vec::new(),
        kind: EventKind::Span(start, duration),
        value: value.to_string(),
        tooltip: None,
    }
}

fn filled(start: i64, duration: u32, value: &str) -> Event {
    Event {
        fields: vec![("fill".to_string(), "#AB7C94".to_string())],
        kind: EventKind::Span(start, Some(duration)),
        value: value.to_string(),
        tooltip: None,
    }
}

fn text_or_null(text: &Option<String>) -> Value {
    match text {
        Some(t) => Value::from(t.clone()),
        None => Value::Null,
    }
}

fn tagged(tag: &str, value: Value) -> Value {
    let mut m = serde_json::Map::new();
    m.insert(tag.to_string(), value);
    Value::Object(m)
}

fn encode(r: &Renderer, store: &EventStore) -> String {
    let mut opts = serde_json::Map::new();
    opts.insert("us_per_line".to_string(), Value::from(r.opts.us_per_line));
    opts.insert("sublines".to_string(), Value::from(r.opts.sublines));
    opts.insert("us_per_pixel".to_string(), Value::from(r.opts.us_per_pixel));
    opts.insert("heading".to_string(), Value::from(r.opts.heading.clone()));
    let mut actors = serde_json::Map::new();
    let mut events = serde_json::Map::new();
    for row in 0..store.actor_count() {
        let (actor, list) = store.row(row);
        let mut a = serde_json::Map::new();
        a.insert("identity".to_string(), Value::from(actor.identity.clone()));
        a.insert("tooltip".to_string(), text_or_null(&actor.tooltip));
        actors.insert(actor.identity.clone(), Value::Object(a));
        let mut out = Vec::new();
        for e in list {
            let mut fields = serde_json::Map::new();
            for (k, v) in &e.fields {
                fields.insert(k.clone(), Value::from(v.clone()));
            }
            let kind = match e.kind {
                EventKind::Span(start, Some(d)) => {
                    tagged("Span", Value::Array(vec![Value::from(start), Value::from(d)]))
                }
                EventKind::Span(start, None) => {
                    tagged("Span", Value::Array(vec![Value::from(start), Value::Null]))
                }
                EventKind::Instant(at) => tagged("Instant", Value::from(at)),
            };
            let mut ev = serde_json::Map::new();
            ev.insert("fields".to_string(), Value::Object(fields));
            ev.insert("kind".to_string(), kind);
            ev.insert("value".to_string(), Value::from(e.value.clone()));
            ev.insert("tooltip".to_string(), text_or_null(&e.tooltip));
            out.push(Value::Object(ev));
        }
        events.insert(actor.identity.clone(), Value::Array(out));
    }
    let mut model = serde_json::Map::new();
    model.insert("actors".to_string(), Value::Object(actors));
    model.insert("events".to_string(), Value::Object(events));
    Value::Array(vec![tagged("opts", Value::Object(opts)), Value::Object(model)]).to_string()
}

fn decode_event(e: &Value) -> Event {
    let kind = match e["kind"].get("Span") {
        Some(span) => EventKind::Span(
            span[0].as_i64().unwrap(),
            span[1].as_u64().map(|d| d as u32),
        ),
        None => EventKind::Instant(e["kind"]["Instant"].as_i64().unwrap()),
    };
    Event {
        fields: e["fields"]
            .as_object()
            .unwrap()
            .iter()
            .map(|(k, v)| (k.clone(), v.as_str().unwrap().to_string()))
            .collect(),
        kind,
        value: e["value"].as_str().unwrap().to_string(),
        tooltip: e["tooltip"].as_str().map(String::from),
    }
}

fn decode(payload: &str) -> (Renderer, EventStore) {
    let v: Value = serde_json::from_str(payload).unwrap();
    let opts = &v[0]["opts"];
    let r = Renderer {
        opts: RenderOpts {
            us_per_line: opts["us_per_line"].as_u64().unwrap(),
            sublines: opts["sublines"].as_u64().unwrap() as u32,
            us_per_pixel: opts["us_per_pixel"].as_u64().unwrap() as u32,
            heading: opts["heading"].as_str().unwrap().to_string(),
        },
    };
    let actors = v[1]["actors"]
        .as_object()
        .unwrap()
        .iter()
        .map(|(id, a)| {
            (
                id.clone(),
                Actor {
                    identity: a["identity"].as_str().unwrap().to_string(),
                    tooltip: a["tooltip"].as_str().map(String::from),
                },
            )
        })
        .collect();
    let entries = v[1]["events"]
        .as_object()
        .unwrap()
        .iter()
        .map(|(id, list)| {
            (id.clone(), list.as_array().unwrap().iter().map(decode_event).collect())
        })
        .collect();
    (r, rebuild(actors, entries).unwrap())
}

fn document(comment: &str) -> String {
    format!(
        "<svg height=\"95\" width=\"765\" xmlns=\"http://www.w3.org/2000/svg\">\n{}\n<defs>\n<style>\ntext {{ }}\n</style>\n</defs>\n<g transform=\"translate(520, 65)\">\n<path d=\"M-500,0 l0,40 z\"/>\n</g>\n</svg>",
        comment
    )
}

#[test]
fn test_render() {
    let r = RendererBuilder::default()
        .heading("My Heading\nanother line")
        .build();

    let mut context = EventStore::default();

    let actor = context.register_actor(Actor::new("myproc")).unwrap();

    let actor2 = context.register_actor(Actor::new("myproc2")).unwrap();

    context
        .add_event(
            &actor,
            filled(
                Duration::from_millis(3500).as_micros() as i64,
                Duration::from_millis(750).as_micros() as u32,
                "start1",
            ),
        )
        .unwrap();

    context
        .add_event(
            &actor,
            filled(
                Duration::from_millis(1500).as_micros() as i64,
                Duration::from_millis(750).as_micros() as u32,
                "other1",
            ),
        )
        .unwrap();

    context
        .add_event(
            &actor2,
            filled(
                -(Duration::from_millis(5000).as_micros() as i64),
                Duration::from_millis(2000).as_micros() as u32,
                "start2",
            ),
        )
        .unwrap();

    let scene = r.render(&context);
    assert_eq!(scene.first_time, -5_000_000);
    assert_eq!(scene.last_time, 4_250_000);
    assert_eq!(scene.box_width, 9_250_000);
    assert_eq!(scene.heading, vec!["My Heading".to_string(), "another line".to_string()]);
    assert_eq!(scene.lanes.len(), 2);
    assert_eq!(context.row(scene.lanes[0].row).0.identity, "myproc2");
    assert_eq!(context.row(scene.lanes[1].row).0.identity, "myproc");
    assert_eq!(
        scene.lanes[1].shapes,
        vec![
            Shape::Bar { event: 0, start: 1_500_000, width: 750_000, open: false },
            Shape::Bar { event: 1, start: 3_500_000, width: 750_000, open: false },
        ]
    );

    let text = document(&embed(&encode(&r, &context)));
    let (r2, events2) = decode(&load(&text).unwrap());
    assert_eq!(r2, r);
    assert_eq!(events2.actors(), context.actors());
    for row in 0..context.actor_count() {
        assert_eq!(events2.row(row), context.row(row));
    }
    assert_eq!(events2.row(0).1[0].value, "other1");
    assert_eq!(events2.row(0).1[1].fields, vec![("fill".to_string(), "#AB7C94".to_string())]);
    let scene2 = r2.render(&events2);
    assert_eq!(scene2, scene);
    assert_eq!(encode(&r2, &events2), encode(&r, &context));
}

#[test]
fn scenario_two_actors() {
    let r = Renderer::default();
    assert_eq!(r.opts.us_per_pixel, 10_000);
    let mut store = EventStore::default();
    let a = store.register_actor(Actor::new("A")).unwrap();
    let b = store.register_actor(Actor::new("B")).unwrap();
    store.add_event(&a, filled(1_500_000, 750_000, "")).unwrap();
    store.add_event(&b, span(-5_000_000, Some(2_000_000), "")).unwrap();
    let scene = r.render(&store);
    let distance = (2_250_000.0 - -5_000_000.0) / r.opts.us_per_pixel as f64;
    assert_eq!(distance, 725.0);
    assert!(scene.box_width as f64 / r.opts.us_per_pixel as f64 >= distance);
    assert_eq!(scene.box_width, 7_250_000);
    assert_eq!(scene.first_time, -5_000_000);
    assert_eq!(scene.last_time, 2_250_000);
    assert_eq!(scene.lanes.len(), 2);
    assert_eq!(store.row(scene.lanes[0].row).0.identity, "B");
    assert_eq!(store.row(scene.lanes[1].row).0.identity, "A");
    assert_eq!(
        scene.lanes[0].shapes,
        vec![Shape::Bar { event: 0, start: -5_000_000, width: 2_000_000, open: false }]
    );
    assert_eq!(
        scene.lanes[0].label,
        Some(Label { at: -5_000_000, side: LabelSide::Left })
    );
    assert_eq!(
        scene.lanes[1].label,
        Some(Label { at: 1_500_000, side: LabelSide::Right })
    );
    assert_eq!(store.events_for(&a).unwrap()[0].fields[0].1, "#AB7C94");
}

#[test]
fn bounds_of_an_empty_chart() {
    let store = EventStore::default();
    assert_eq!(first_event_time(&store), 0);
    assert_eq!(last_event_time(&store), 0);
    let scene = Renderer::default().render(&store);
    assert_eq!(scene.box_width, 0);
    assert_eq!(scene.lanes.len(), 0);
    assert_eq!(scene.heading.len(), 0);
    assert_eq!(scene.grid, vec![GridLine { time: 0, major: true }]);
}

#[test]
fn axis_begins_at_the_origin_when_events_start_later() {
    let mut store = EventStore::default();
    let a = store.register_actor(Actor::new("A")).unwrap();
    store.add_event(&a, span(3_000_000, Some(1_000_000), "")).unwrap();
    assert_eq!(first_event_time(&store), 0);
    assert_eq!(last_event_time(&store), 4_000_000);
}

#[test]
fn open_spans_do_not_move_the_end() {
    let mut store = EventStore::default();
    let a = store.register_actor(Actor::new("A")).unwrap();
    store.add_event(&a, span(9_000_000, None, "")).unwrap();
    assert_eq!(last_event_time(&store), 0);
    store.add_event(&a, span(-8_000_000, Some(1_000_000), "")).unwrap();
    assert_eq!(last_event_time(&store), -7_000_000);
    assert_eq!(first_event_time(&store), -8_000_000);
    store.add_event(&a, Event {
        fields: Vec::new(),
        kind: EventKind::Instant(5),
        value: String::new(),
        tooltip: None,
    }).unwrap();
    assert_eq!(last_event_time(&store), 5);
}

#[test]
fn open_span_reaches_the_right_edge_of_the_box() {
    let mut store = EventStore::default();
    let a = store.register_actor(Actor::new("A")).unwrap();
    let b = store.register_actor(Actor::new("B")).unwrap();
    store.add_event(&a, span(1_000_000, None, "")).unwrap();
    store.add_event(&b, span(-2_000_000, Some(5_000_000), "")).unwrap();
    let scene = Renderer::default().render(&store);
    assert_eq!(scene.first_time, -2_000_000);
    assert_eq!(scene.box_width, 5_000_000);
    let lane = &scene.lanes[1];
    assert_eq!(store.row(lane.row).0.identity, "A");
    assert_eq!(
        lane.shapes,
        vec![Shape::Bar { event: 0, start: 1_000_000, width: -2_000_000 + 5_000_000 - 1_000_000, open: true }]
    );
    let alone = render_actor(0, store.events_for(&a).unwrap(), -2_000_000, 5_000_000);
    assert_eq!(alone.shapes, lane.shapes);
    let late = render_actor(7, &vec![span(10, None, "")], 0, 0);
    assert_eq!(late.row, 7);
    assert_eq!(late.shapes, vec![Shape::Bar { event: 0, start: 10, width: -10, open: true }]);
}

#[test]
fn instants_become_markers_and_carry_no_label() {
    let events = vec![
        Event { fields: Vec::new(), kind: EventKind::Instant(-3), value: String::new(), tooltip: None },
        span(4, Some(2), ""),
        span(8, Some(2), ""),
    ];
    let lane = render_actor(0, &events, -3, 13);
    assert_eq!(
        lane.shapes,
        vec![
            Shape::Marker { event: 0, at: -3 },
            Shape::Bar { event: 1, start: 4, width: 2, open: false },
            Shape::Bar { event: 2, start: 8, width: 2, open: false },
        ]
    );
    assert_eq!(lane.label, Some(Label { at: 4, side: LabelSide::Right }));
    let only = render_actor(
        0,
        &vec![Event { fields: Vec::new(), kind: EventKind::Instant(-3), value: String::new(), tooltip: None }],
        -3,
        13,
    );
    assert_eq!(only.label, None);
    assert_eq!(render_actor(0, &Vec::new(), 0, 0).label, None);
}

#[test]
fn label_side_turns_in_the_middle_of_the_box() {
    let left = render_actor(0, &vec![span(49, Some(1), "")], 0, 100);
    assert_eq!(left.label, Some(Label { at: 49, side: LabelSide::Left }));
    let right = render_actor(0, &vec![span(50, Some(1), "")], 0, 100);
    assert_eq!(right.label, Some(Label { at: 50, side: LabelSide::Right }));
    let left = render_actor(0, &vec![span(-51, Some(1), "")], -100, 100);
    assert_eq!(left.label, Some(Label { at: -51, side: LabelSide::Left }));
    let right = render_actor(0, &vec![span(-50, Some(1), "")], -100, 100);
    assert_eq!(right.label, Some(Label { at: -50, side: LabelSide::Right }));
    let odd = render_actor(0, &vec![span(0, Some(1), "")], 0, 1);
    assert_eq!(odd.label, Some(Label { at: 0, side: LabelSide::Left }));
}

#[test]
fn lanes_go_by_first_start_then_by_identity() {
    let mut store = EventStore::default();
    for name in ["d", "a", "c", "b", "e"] {
        store.register_actor(Actor::new(name)).unwrap();
    }
    store.add_event(&"a".to_string(), span(5, None, "")).unwrap();
    store.add_event(&"b".to_string(), span(9, None, "")).unwrap();
    store.add_event(&"b".to_string(), span(-1, None, "")).unwrap();
    store.add_event(&"d".to_string(), span(5, None, "")).unwrap();
    store.add_event(&"e".to_string(), span(5, Some(1), "")).unwrap();
    let order = lane_order(&store);
    let names: Vec<String> = order.iter().map(|&r| store.row(r).0.identity.clone()).collect();
    assert_eq!(names, vec!["b", "a", "d", "e"]);
}

#[test]
fn grid_labels_stand_on_whole_lines_only() {
    let r = Renderer::default();
    assert_eq!(r.opts.us_per_line, 1_000_000);
    let lines = r.render_lines(0, 2_000_000);
    assert_eq!(lines.len(), 21);
    for (k, line) in lines.iter().enumerate() {
        assert_eq!(line.time, 100_000 * k as i128);
        assert_eq!(line.major, line.time % 1_000_000 == 0);
    }
    assert!(lines[0].major && lines[10].major && lines[20].major);
    assert!(!lines[1].major && !lines[9].major && !lines[11].major);
}

#[test]
fn grid_covers_the_events() {
    let r = Renderer::default();
    let lines = r.render_lines(-5_500_000, 2_250_000);
    assert_eq!(lines[0], GridLine { time: -6_000_000, major: true });
    assert_eq!(lines[lines.len() - 1], GridLine { time: 3_000_000, major: true });
    assert_eq!(lines.len(), 91);
    assert_eq!(lines[5], GridLine { time: -5_500_000, major: false });
    assert_eq!(lines.iter().filter(|l| l.major).count(), 10);
}

#[test]
fn grid_with_a_step_that_does_not_divide_the_line() {
    let r = Renderer {
        opts: RenderOpts { us_per_line: 10, sublines: 3, us_per_pixel: 1, heading: String::new() },
    };
    let lines = r.render_lines(-4, 11);
    let times: Vec<i128> = lines.iter().map(|l| l.time).collect();
    assert_eq!(times, vec![-10, -7, -4, -1, 0, 3, 6, 9, 10, 13, 16, 19, 20]);
    let major: Vec<i128> = lines.iter().filter(|l| l.major).map(|l| l.time).collect();
    assert_eq!(major, vec![-10, 0, 10, 20]);
    let short = r.render_lines(0, 10);
    let times: Vec<i128> = short.iter().map(|l| l.time).collect();
    assert_eq!(times, vec![0, 3, 6, 9, 10]);
    assert!(short[0].major && short[4].major);
    assert!(!short[1].major && !short[3].major);
}

#[test]
fn grid_without_sublines_has_major_lines_only() {
    let r = Renderer {
        opts: RenderOpts { us_per_line: 7, sublines: 1, us_per_pixel: 1, heading: String::new() },
    };
    let lines = r.render_lines(-1, 8);
    assert_eq!(
        lines,
        vec![
            GridLine { time: -7, major: true },
            GridLine { time: 0, major: true },
            GridLine { time: 7, major: true },
            GridLine { time: 14, major: true },
        ]
    );
}

#[test]
fn grid_at_the_ends_of_time() {
    let r = Renderer {
        opts: RenderOpts {
            us_per_line: u64::MAX,
            sublines: 1,
            us_per_pixel: 1,
            heading: String::new(),
        },
    };
    let lines = r.render_lines(i64::MIN, i64::MAX);
    assert_eq!(
        lines,
        vec![
            GridLine { time: -(u64::MAX as i128), major: true },
            GridLine { time: 0, major: true },
            GridLine { time: u64::MAX as i128, major: true },
        ]
    );
}

#[test]
fn remainder_is_never_negative() {
    assert_eq!(floor_rem(7, 5), 2);
    assert_eq!(floor_rem(-7, 5), 3);
    assert_eq!(floor_rem(-10, 5), 0);
    assert_eq!(floor_rem(0, 5), 0);
    assert_eq!(floor_rem(i64::MIN, 10), 2);
    assert_eq!(floor_rem(i64::MIN, u64::MAX), 9223372036854775807);
}

#[test]
fn line_time_in_seconds_and_microseconds() {
    assert_eq!(render_line_time(1_000_000), "1.0");
    assert_eq!(render_line_time(1_500_000), "1.500000");
    assert_eq!(render_line_time(-5_000_000), "-5.0");
    assert_eq!(render_line_time(-5_250_001), "-5.250001");
    assert_eq!(render_line_time(0), "0.0");
    assert_eq!(render_line_time(999_999), "0.999999");
    assert_eq!(render_line_time(-7), "-0.7");
    assert_eq!(render_line_time(12_000_034), "12.34");
    assert_eq!(
        render_line_time(i128::MIN),
        "-170141183460469231731687303715884.105728"
    );
}

#[test]
fn numbers_in_decimal_digits() {
    assert_eq!(to_decimal(0), "0");
    assert_eq!(to_decimal(9), "9");
    assert_eq!(to_decimal(10), "10");
    assert_eq!(to_decimal(1_234_567_890), "1234567890");
    assert_eq!(to_decimal(u128::MAX), u128::MAX.to_string());
}

#[test]
fn heading_is_split_into_lines() {
    let r = RendererBuilder::default().heading("one\ntwo\r\nthree\n").build();
    assert_eq!(r.render_heading(), vec!["one", "two", "three"]);
    assert_eq!(Renderer::default().render_heading().len(), 0);
    assert_eq!(r.opts.sublines, 10);
}

#[test]
fn builder_keeps_the_defaults() {
    let r = RendererBuilder::default().build();
    assert_eq!(r, Renderer::default());
    assert_eq!(
        r.opts,
        RenderOpts { us_per_line: 1_000_000, sublines: 10, us_per_pixel: 10_000, heading: String::new() }
    );
    assert_eq!(RenderOpts::default(), r.opts);
}

#[test]
fn style_sheet_is_fixed() {
    let css = Renderer::default().render_css();
    assert_eq!(css, STYLESHEET);
    assert!(css.contains("path.subline   { stroke: rgb(224,224,224); stroke-width: 0.7; }"));
    assert!(css.contains("text.label     { font-size: 10px; }"));
}

#[test]
fn comment_round_trip() {
    let payload = "[{\"opts\":1},{\"actors\":{\"A\":\"é -- >\"}}]";
    let comment = embed(payload);
    assert_eq!(comment, format!("<!-- {} -->", payload));
    assert_eq!(decode_comment(&comment), Ok(payload.to_string()));
    assert_eq!(embed(""), "<!--  -->");
    assert_eq!(decode_comment("<!--  -->"), Ok(String::new()));
}

#[test]
fn comment_without_the_delimiters_is_malformed() {
    assert_eq!(decode_comment("<!---->"), Err(CodecError::MalformedEmbeddedState));
    assert_eq!(decode_comment("<!--x -->"), Err(CodecError::MalformedEmbeddedState));
    assert_eq!(decode_comment("<!-- x-->"), Err(CodecError::MalformedEmbeddedState));
    assert_eq!(decode_comment("<!-- -->"), Err(CodecError::MalformedEmbeddedState));
    assert_eq!(decode_comment(""), Err(CodecError::MalformedEmbeddedState));
    assert_eq!(decode_comment("[ x y z ] and more"), Err(CodecError::MalformedEmbeddedState));
}

#[test]
fn load_takes_the_first_comment() {
    let text = document("<!-- first -->\n<!-- second -->");
    assert_eq!(load(&text), Ok("first".to_string()));
    let tight = "<svg><!--tight--></svg>";
    assert_eq!(load(tight), Err(CodecError::MalformedEmbeddedState));
}

#[test]
fn load_without_a_comment_finds_no_state() {
    assert_eq!(load(&document("")), Err(CodecError::EmbeddedStateNotFound));
    assert_eq!(load(""), Err(CodecError::EmbeddedStateNotFound));
    assert_eq!(load("just text"), Err(CodecError::EmbeddedStateNotFound));
    assert_eq!(load("<svg"), Err(CodecError::EmbeddedStateNotFound));
    assert_eq!(load("<svg =>text"), Err(CodecError::EmbeddedStateNotFound));
}

#[test]
fn state_survives_a_render_and_a_load() {
    let mut store = EventStore::default();
    let a = store.register_actor(Actor::new("A")).unwrap();
    store.register_actor(Actor { identity: "idle".to_string(), tooltip: Some("tip".to_string()) }).unwrap();
    store.add_event(&a, span(-1_000_000, Some(3_000_000), "")).unwrap();
    store.add_event(&a, span(2_000_000, None, "open")).unwrap();
    store.add_event(&a, Event {
        fields: vec![pair("class", "hot"), pair("fill", "red")],
        kind: EventKind::Instant(7),
        value: "now".to_string(),
        tooltip: Some("t".to_string()),
    }).unwrap();
    let r = RendererBuilder::default().heading("Title").build();
    let before = r.render(&store);
    let payload = encode(&r, &store);
    let loaded = load(&document(&embed(&payload))).unwrap();
    assert_eq!(loaded, payload);
    let (r2, again) = decode(&loaded);
    assert_eq!(r2, r);
    assert_eq!(again.actor_count(), 2);
    for row in 0..2 {
        assert_eq!(again.row(row), store.row(row));
    }
    assert_eq!(r2.render(&again), before);
}

#[test]
fn field_goes_before_what_the_attribute_held() {
    assert_eq!(merged_attribute("#AB7C94", "old"), "#AB7C94 old");
    assert_eq!(merged_attribute("wide", "span"), "wide span");
    assert_eq!(merged_attribute("", ""), " ");
}

fn pair(key: &str, value: &str) -> (String, String) {
    (key.to_string(), value.to_string())
}

#[test]
fn fields_are_merged_onto_the_attributes() {
    let base = vec![pair("class", "span"), pair("width", "75"), pair("x", "150")];
    let fields = vec![pair("class", "wide"), pair("fill", "#AB7C94")];
    assert_eq!(
        merge_fields(base, &fields),
        vec![
            pair("class", "wide span"),
            pair("width", "75"),
            pair("x", "150"),
            pair("fill", "#AB7C94"),
        ]
    );
    assert_eq!(merge_fields(vec![pair("a", "b")], &Vec::new()), vec![pair("a", "b")]);
    assert_eq!(
        merge_fields(Vec::new(), &vec![pair("k", "1"), pair("k", "2")]),
        vec![pair("k", "2 1")]
    );
}

#[test]
fn one_field_changes_one_attribute() {
    let mut attrs = vec![pair("a", "1"), pair("b", "2"), pair("a", "3")];
    merge_field(&mut attrs, "a", "x");
    assert_eq!(attrs, vec![pair("a", "x 1"), pair("b", "2"), pair("a", "3")]);
    merge_field(&mut attrs, "c", "");
    assert_eq!(attrs[3], pair("c", ""));
    merge_field(&mut attrs, "fill", "#AB7C94");
    assert_eq!(attrs[4], pair("fill", "#AB7C94"));
    assert_eq!(attrs.len(), 5);
}

#[test]
fn options_without_a_step_have_no_grid() {
    let mut opts = RenderOpts::default();
    assert!(opts.has_grid());
    opts.sublines = 0;
    assert!(!opts.has_grid());
    opts.sublines = 11;
    opts.us_per_line = 10;
    assert!(!opts.has_grid());
    opts.us_per_line = 11;
    assert!(opts.has_grid());
}

#[test]
fn load_passes_over_what_cannot_be_read() {
    assert_eq!(load("<svg =><!-- late -->"), Ok("late".to_string()));
    assert_eq!(load("<a b><c =\"1\"></c><!-- x --><!-- y -->"), Ok("x".to_string()));
}

#[test]
fn span_carries_its_fill() {
    let event = filled(1_500_000, 750_000, "");
    let own = vec![pair("class", "span"), pair("x", "150"), pair("width", "75")];
    assert_eq!(
        span_attributes(own, &event),
        vec![
            pair("class", "span"),
            pair("x", "150"),
            pair("width", "75"),
            pair("fill", "#AB7C94"),
        ]
    );
    assert_eq!(event.fields, vec![pair("fill", "#AB7C94")]);
    let mut classed = span(0, None, "");
    classed.fields = vec![pair("class", "hot"), pair("x", "1")];
    assert_eq!(
        span_attributes(vec![pair("class", "span"), pair("x", "150")], &classed),
        vec![pair("class", "hot span"), pair("x", "1 150")]
    );
}

fn model() -> (Vec<(String, Actor)>, Vec<(String, Vec<Event>)>) {
    (
        vec![("b".to_string(), Actor::new("b")), ("a".to_string(), Actor::new("a"))],
        vec![
            ("a".to_string(), vec![span(5, Some(1), "late"), span(1, None, "early")]),
            ("b".to_string(), Vec::new()),
        ],
    )
}

#[test]
fn rebuild_gives_the_store_of_the_parts() {
    let (actors, entries) = model();
    let store = rebuild(actors, entries).unwrap();
    assert_eq!(store.actors(), vec!["a".to_string(), "b".to_string()]);
    let values: Vec<&str> = store.row(0).1.iter().map(|e| e.value.as_str()).collect();
    assert_eq!(values, vec!["early", "late"]);
    assert_eq!(store.row(1).1.len(), 0);
    assert_eq!(rebuild(Vec::new(), Vec::new()).unwrap().actor_count(), 0);
}

#[test]
fn rebuild_keeps_the_first_of_a_pair() {
    let (actors, mut entries) = model();
    entries[0].1.push(span(5, Some(1), "again"));
    let store = rebuild(actors, entries).unwrap();
    let values: Vec<&str> = store.row(0).1.iter().map(|e| e.value.as_str()).collect();
    assert_eq!(values, vec!["early", "late"]);
}

#[test]
fn rebuild_refuses_a_broken_model() {
    let (mut actors, entries) = model();
    actors[0].0 = "c".to_string();
    assert_eq!(rebuild(actors, entries).unwrap_err(), ModelError::IdMismatch);

    let (mut actors, entries) = model();
    actors.push(("a".to_string(), Actor::new("a")));
    assert_eq!(rebuild(actors, entries).unwrap_err(), ModelError::DuplicateActor);

    let (actors, mut entries) = model();
    entries.push(("a".to_string(), Vec::new()));
    assert_eq!(rebuild(actors, entries).unwrap_err(), ModelError::DuplicateEntry);

    let (actors, mut entries) = model();
    entries.pop();
    assert_eq!(rebuild(actors, entries).unwrap_err(), ModelError::MissingEntry);

    let (actors, mut entries) = model();
    entries.push(("z".to_string(), Vec::new()));
    assert_eq!(rebuild(actors, entries).unwrap_err(), ModelError::UnknownActor);

    let (actors, mut entries) = model();
    entries[1].1.push(span(i64::MAX, Some(1), "late"));
    assert_eq!(rebuild(actors, entries).unwrap_err(), ModelError::BadEvent);
}

#[test]
fn events_added_one_after_the_other() {
    let mut store = EventStore::default();
    let a = store.register_actor(Actor::new("a")).unwrap();
    let b = store.register_actor(Actor::new("b")).unwrap();
    store.add_event(&b, span(0, None, "other")).unwrap();
    store.add_events(&a, vec![span(3, None, "x"), span(1, None, "y"), span(3, None, "z")]);
    let values: Vec<&str> = store.row(0).1.iter().map(|e| e.value.as_str()).collect();
    assert_eq!(values, vec!["y", "x"]);
    assert_eq!(store.row(1).1.len(), 1);
}
