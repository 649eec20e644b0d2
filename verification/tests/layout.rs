//! Rebuilding a layout of panes.
use gitview::layout::{
    parse_pane_rects, plan_rebuild, Dir, LayoutError, MoveStep, PaneRect, ReplyError,
};
use serde_json::Value;

fn ratio(s: &MoveStep) -> f64 {
    s.part as f64 / s.whole as f64
}

fn r(id: &str, x: u32, y: u32, w: u32, h: u32) -> PaneRect {
    PaneRect {
        pane_id: id.into(),
        x,
        y,
        w,
        h,
    }
}

#[test]
fn single_pane_plan_is_anchor_only() {
    let p = plan_rebuild(&vec![r("p1", 0, 0, 100, 50)]).unwrap();
    assert_eq!(p.anchor, "p1");
    assert!(p.steps.is_empty());
}

#[test]
fn two_columns() {
    let p = plan_rebuild(&vec![r("a", 0, 0, 40, 50), r("b", 41, 0, 59, 50)]).unwrap();
    assert_eq!(p.anchor, "a");
    assert_eq!(p.steps.len(), 1);
    let s = &p.steps[0];
    assert_eq!((s.pane.as_str(), s.target.as_str()), ("b", "a"));
    assert!(matches!(s.dir, Dir::Right));
    assert!((ratio(s) - 0.4).abs() < 0.03);
}

#[test]
fn asymmetric_three_pane() {
    let p = plan_rebuild(&vec![
        r("a", 0, 0, 40, 52),
        r("b", 41, 0, 59, 15),
        r("c", 41, 16, 59, 36),
    ])
    .unwrap();
    assert_eq!(p.anchor, "a");
    assert_eq!(p.steps.len(), 2);
    assert_eq!(p.steps[0].pane, "b");
    assert!(matches!(p.steps[0].dir, Dir::Right));
    assert_eq!(p.steps[1].pane, "c");
    assert_eq!(p.steps[1].target, "b");
    assert!(matches!(p.steps[1].dir, Dir::Down));
    assert!((ratio(&p.steps[1]) - 0.3).abs() < 0.05);
}

#[test]
fn grid_2x2() {
    let p = plan_rebuild(&vec![
        r("a", 0, 0, 50, 25),
        r("b", 51, 0, 49, 25),
        r("c", 0, 26, 50, 26),
        r("d", 51, 26, 49, 26),
    ])
    .unwrap();
    assert_eq!(p.steps.len(), 3);
}

#[test]
fn overlapping_rects_error() {
    assert!(plan_rebuild(&vec![r("a", 0, 0, 60, 50), r("b", 30, 0, 70, 50)]).is_err());
    assert!(plan_rebuild(&vec![r("a", 0, 0, 50, 50), r("b", 49, 0, 51, 50)]).is_err());
}

#[test]
fn parses_pane_layout_reply() {
    let value: Value = serde_json::from_str(
        r#"{"result":{"layout":{"area":{"x":2,"y":1,"width":100,"height":50},
            "panes":[
              {"pane_id":"w0:p1","rect":{"x":2,"y":1,"width":40,"height":50}},
              {"pane_id":"w0:p2","rect":{"x":43,"y":1,"width":59,"height":50}}
            ]}}}"#,
    )
    .unwrap();
    let rects = parse_pane_rects(&value).unwrap();
    assert_eq!(rects.len(), 2);
    assert_eq!(rects[0], r("w0:p1", 0, 0, 40, 50));
    assert_eq!(rects[1], r("w0:p2", 41, 0, 59, 50));
}

#[test]
fn a_plan_names_every_pane_once_and_runs_in_order() {
    let rects = vec![
        r("a", 0, 0, 40, 52),
        r("b", 41, 0, 59, 15),
        r("c", 41, 16, 59, 36),
        r("d", 101, 0, 30, 52),
    ];
    let p = plan_rebuild(&rects).unwrap();
    let mut placed = vec![p.anchor.clone()];
    for s in &p.steps {
        assert!(placed.contains(&s.target), "{} is not in place", s.target);
        assert!(0 < s.part && s.part < s.whole);
        placed.push(s.pane.clone());
    }
    placed.sort();
    assert_eq!(placed, vec!["a", "b", "c", "d"]);
}

#[test]
fn the_exact_part_of_a_cut() {
    let p = plan_rebuild(&vec![r("a", 0, 0, 40, 50), r("b", 41, 0, 59, 50)]).unwrap();
    assert_eq!((p.steps[0].part, p.steps[0].whole), (40, 100));
}

#[test]
fn coordinates_at_the_limit_do_not_overflow() {
    let max = u32::MAX;
    let p = plan_rebuild(&vec![r("a", 0, 0, max, max), r("b", max, 0, max, max)]).unwrap();
    assert_eq!(p.anchor, "a");
    assert_eq!((p.steps[0].part, p.steps[0].whole), (4294967295, 8589934590));
}

#[test]
fn an_empty_layout_has_no_plan() {
    let err = plan_rebuild(&Vec::new()).unwrap_err();
    assert_eq!(err, LayoutError::NoPanes);
    assert_eq!(err.message(), "no panes");
    let err = plan_rebuild(&vec![r("a", 0, 0, 60, 50), r("b", 30, 0, 70, 50)]).unwrap_err();
    assert_eq!(err, LayoutError::NotPartitionable(2));
    assert_eq!(err.message(), "layout is not guillotine-partitionable (2 rects)");
}

#[test]
fn a_cut_next_to_the_border_is_none() {
    // The first pane ends two cells from the left edge.
    assert!(plan_rebuild(&vec![r("a", 0, 0, 2, 1), r("b", 2, 0, 50, 1)]).is_err());
    assert!(plan_rebuild(&vec![r("a", 0, 0, 3, 1), r("b", 3, 0, 50, 1)]).is_ok());
}

fn reply(text: &str) -> Result<Vec<PaneRect>, ReplyError> {
    parse_pane_rects(&serde_json::from_str::<Value>(text).unwrap())
}

#[test]
fn what_is_missing_from_a_reply_is_said() {
    let said = |text: &str| reply(text).unwrap_err().message();
    assert_eq!(said("{}"), "pane layout response missing result.layout");
    assert_eq!(
        said(r#"{"result":{"layout":{}}}"#),
        "JSON response missing unsigned integer at /area/x"
    );
    assert_eq!(
        said(r#"{"result":{"layout":{"area":{"x":0,"y":-1}}}}"#),
        "JSON response missing unsigned integer at /area/y"
    );
    assert_eq!(
        said(r#"{"result":{"layout":{"area":{"x":4294967296,"y":0}}}}"#),
        "integer at /area/x does not fit in u32"
    );
    assert_eq!(
        said(r#"{"result":{"layout":{"area":{"x":0,"y":0}}}}"#),
        "pane layout response missing result.layout.panes array"
    );
    let pane = |p: &str| {
        format!(r#"{{"result":{{"layout":{{"area":{{"x":5,"y":5}},"panes":[{p}]}}}}}}"#)
    };
    assert_eq!(
        said(&pane(r#"{"rect":{"x":5,"y":5,"width":1,"height":1}}"#)),
        "pane layout entry missing pane_id"
    );
    assert_eq!(
        said(&pane(r#"{"pane_id":"p","rect":{"x":4,"y":5}}"#)),
        "pane rect x is outside the layout area"
    );
    assert_eq!(
        said(&pane(r#"{"pane_id":"p","rect":{"x":5,"y":4}}"#)),
        "pane rect y is outside the layout area"
    );
    assert_eq!(
        said(&pane(r#"{"pane_id":"p","rect":{"x":5,"y":5,"width":1}}"#)),
        "JSON response missing unsigned integer at /rect/height"
    );
}

#[test]
fn directions_on_the_command_line() {
    assert_eq!(Dir::Right.as_cli_arg(), "right");
    assert_eq!(Dir::Down.as_cli_arg(), "down");
}
