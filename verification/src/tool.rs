//! The drawing tools of the editor, and what a pointer does with them on
//! the canvas: a press starts a stroke, a drag continues it and a release
//! finishes it.
use vstd::prelude::*;

verus! {

/// A drawing tool.
#[derive(Debug, Clone, Copy, PartialEq, Eq, Structural)]
pub enum Tool {
    Pencil,
    Eraser,
    Line,
    Rectangle,
    Circle,
    Fill,
}

/// The pointer on the canvas during one frame of the interface: the pixel
/// under it, whether a click was reported, whether it was dragged, and
/// whether the primary button is down.
#[derive(Debug, Clone, Copy, PartialEq, Eq, Structural)]
pub struct PointerEvent {
    pub x: i32,
    pub y: i32,
    pub clicked: bool,
    pub dragged: bool,
    pub down: bool,
}

/// A stroke in progress: whether one is, and the pixels where it started
/// and where the pointer last was.
#[derive(Debug, Clone, Copy)]
pub struct StrokeState {
    pub drawing: bool,
    pub start: Option<(i32, i32)>,
    pub end: Option<(i32, i32)>,
}

/// What a stroke asks to be drawn on the current frame.
#[derive(Debug, Clone, Copy, PartialEq, Eq, Structural)]
pub enum DrawAction {
    /// The round brush centred on `(x, y)`.
    Stamp { x: i32, y: i32, color: u8 },
    /// A flood fill from `(x, y)`.
    Fill { x: i32, y: i32, color: u8 },
    /// A line between the two points.
    Line { x0: i32, y0: i32, x1: i32, y1: i32, color: u8 },
    /// A rectangle with the two points as corners, filled or outlined.
    Rect { x0: i32, y0: i32, x1: i32, y1: i32, color: u8, filled: bool },
    /// A circle centred on the first point through the second, filled or
    /// outlined (the radius is the distance between them).
    Circle { x0: i32, y0: i32, x1: i32, y1: i32, color: u8, filled: bool },
}

/// No stroke in progress.
pub open spec fn idle_stroke() -> StrokeState {
    StrokeState { drawing: false, start: None, end: None }
}

/// What pressing with `tool` at `(x, y)` draws: the brush for the pencil
/// (colour `brush`) and the eraser (colour 0), a fill for the bucket.
pub open spec fn press_actions(tool: Tool, x: i32, y: i32, brush: u8) -> Seq<DrawAction> {
    match tool {
        Tool::Pencil => seq![DrawAction::Stamp { x, y, color: brush }],
        Tool::Eraser => seq![DrawAction::Stamp { x, y, color: 0 }],
        Tool::Fill => seq![DrawAction::Fill { x, y, color: brush }],
        _ => Seq::empty(),
    }
}

/// What dragging `tool` over `(x, y)` draws: the brush for the pencil and
/// the eraser.
pub open spec fn drag_actions(tool: Tool, x: i32, y: i32, brush: u8) -> Seq<DrawAction> {
    match tool {
        Tool::Pencil => seq![DrawAction::Stamp { x, y, color: brush }],
        Tool::Eraser => seq![DrawAction::Stamp { x, y, color: 0 }],
        _ => Seq::empty(),
    }
}

/// What releasing a stroke of `tool` from `s` to `e` draws: the line,
/// rectangle or circle between them.
pub open spec fn release_actions(
    tool: Tool,
    s: (i32, i32),
    e: (i32, i32),
    brush: u8,
    fill_mode: bool,
) -> Seq<DrawAction> {
    match tool {
        Tool::Line => seq![DrawAction::Line { x0: s.0, y0: s.1, x1: e.0, y1: e.1, color: brush }],
        Tool::Rectangle => seq![
            DrawAction::Rect { x0: s.0, y0: s.1, x1: e.0, y1: e.1, color: brush, filled: fill_mode },
        ],
        Tool::Circle => seq![
            DrawAction::Circle { x0: s.0, y0: s.1, x1: e.0, y1: e.1, color: brush, filled: fill_mode },
        ],
        _ => Seq::empty(),
    }
}

/// One frame of pointer handling: a press (a click, or the button down
/// with no stroke in progress) starts a stroke at the pointer, which a fill
/// finishes at once; a drag (or the button held during a stroke) moves the
/// stroke's end; a release during a stroke finishes it. The result is the
/// new state, whether a press happened (the frame is to be recorded for
/// undo before anything is drawn), and what to draw, in order.
pub open spec fn spec_stroke_step(
    st: StrokeState,
    tool: Tool,
    ev: PointerEvent,
    brush: u8,
    fill_mode: bool,
) -> (StrokeState, bool, Seq<DrawAction>) {
    let p = (ev.x, ev.y);
    let press = ev.clicked || (ev.down && !st.drawing);
    let st1 = if press {
        StrokeState { drawing: tool != Tool::Fill, start: Some(p), end: Some(p) }
    } else {
        st
    };
    let a1 = if press {
        press_actions(tool, ev.x, ev.y, brush)
    } else {
        Seq::empty()
    };
    let drag = ev.dragged || (ev.down && st1.drawing);
    let st2 = if drag {
        StrokeState { end: Some(p), ..st1 }
    } else {
        st1
    };
    let a2 = if drag {
        drag_actions(tool, ev.x, ev.y, brush)
    } else {
        Seq::empty()
    };
    let release = !ev.down && st2.drawing;
    let a3 = if release {
        match (st2.start, st2.end) {
            (Some(s), Some(e)) => release_actions(tool, s, e, brush, fill_mode),
            _ => Seq::empty(),
        }
    } else {
        Seq::empty()
    };
    let st3 = if release {
        idle_stroke()
    } else {
        st2
    };
    (st3, press, a1 + a2 + a3)
}

impl StrokeState {
    /// No stroke in progress.
    pub fn new() -> (s: StrokeState)
        ensures
            s == idle_stroke(),
    {
        StrokeState { drawing: false, start: None, end: None }
    }

    /// Handles the pointer for one frame (see `spec_stroke_step`): returns
    /// whether the frame is to be recorded for undo, and what to draw.
    pub fn step(&mut self, tool: Tool, ev: PointerEvent, brush: u8, fill_mode: bool) -> (res: (
        bool,
        Vec<DrawAction>,
    ))
        ensures
            (*final(self), res.0, res.1@) == spec_stroke_step(*old(self), tool, ev, brush, fill_mode),
    {
        let ghost st0 = *self;
        let p = (ev.x, ev.y);
        let mut actions: Vec<DrawAction> = Vec::new();
        let press = ev.clicked || (ev.down && !self.drawing);
        if press {
            let is_fill = match tool {
                Tool::Fill => true,
                _ => false,
            };
            *self = StrokeState { drawing: !is_fill, start: Some(p), end: Some(p) };
            match tool {
                Tool::Pencil => actions.push(DrawAction::Stamp { x: ev.x, y: ev.y, color: brush }),
                Tool::Eraser => actions.push(DrawAction::Stamp { x: ev.x, y: ev.y, color: 0 }),
                Tool::Fill => actions.push(DrawAction::Fill { x: ev.x, y: ev.y, color: brush }),
                _ => {},
            }
        }
        let ghost a1 = actions@;
        assert(a1 =~= (if press {
            press_actions(tool, ev.x, ev.y, brush)
        } else {
            Seq::empty()
        }));
        let drag = ev.dragged || (ev.down && self.drawing);
        if drag {
            self.end = Some(p);
            match tool {
                Tool::Pencil => actions.push(DrawAction::Stamp { x: ev.x, y: ev.y, color: brush }),
                Tool::Eraser => actions.push(DrawAction::Stamp { x: ev.x, y: ev.y, color: 0 }),
                _ => {},
            }
        }
        let ghost a12 = actions@;
        assert(a12 =~= a1 + (if drag {
            drag_actions(tool, ev.x, ev.y, brush)
        } else {
            Seq::empty()
        }));
        let release = !ev.down && self.drawing;
        if release {
            if let (Some(s), Some(e)) = (self.start, self.end) {
                match tool {
                    Tool::Line => actions.push(
                        DrawAction::Line { x0: s.0, y0: s.1, x1: e.0, y1: e.1, color: brush },
                    ),
                    Tool::Rectangle => actions.push(
                        DrawAction::Rect {
                            x0: s.0,
                            y0: s.1,
                            x1: e.0,
                            y1: e.1,
                            color: brush,
                            filled: fill_mode,
                        },
                    ),
                    Tool::Circle => actions.push(
                        DrawAction::Circle {
                            x0: s.0,
                            y0: s.1,
                            x1: e.0,
                            y1: e.1,
                            color: brush,
                            filled: fill_mode,
                        },
                    ),
                    _ => {},
                }
            }
            *self = StrokeState { drawing: false, start: None, end: None };
        }
        let ghost sp = spec_stroke_step(st0, tool, ev, brush, fill_mode);
        assert(actions@ =~= sp.2);
        (press, actions)
    }
}

/// The eraser only ever stamps transparency: every brush stamp it asks
/// for, on a press as on a drag, has colour 0 whatever the brush colour;
/// the pencil stamps the brush colour.
pub proof fn lemma_stamp_colours(
    st: StrokeState,
    tool: Tool,
    ev: PointerEvent,
    brush: u8,
    fill_mode: bool,
)
    ensures
        forall|i: int|
            0 <= i < spec_stroke_step(st, tool, ev, brush, fill_mode).2.len() ==> {
                let a = #[trigger] spec_stroke_step(st, tool, ev, brush, fill_mode).2[i];
                &&& (tool == Tool::Eraser ==> (a matches DrawAction::Stamp { color, .. } && color
                    == 0))
                &&& (tool == Tool::Pencil ==> (a matches DrawAction::Stamp { color, .. } && color
                    == brush))
                &&& (a matches DrawAction::Stamp { x, y, .. } ==> x == ev.x && y == ev.y)
            },
{
}

/// Only a press is recorded for undo, and only the fill acts on a click
/// without the stroke going on: the bucket fills at the pointer in the
/// brush colour and leaves no stroke in progress.
pub proof fn lemma_fill_click(st: StrokeState, ev: PointerEvent, brush: u8, fill_mode: bool)
    requires
        ev.clicked,
        !ev.dragged,
    ensures
        spec_stroke_step(st, Tool::Fill, ev, brush, fill_mode).1,
        spec_stroke_step(st, Tool::Fill, ev, brush, fill_mode).2 == seq![
            DrawAction::Fill { x: ev.x, y: ev.y, color: brush },
        ],
        !spec_stroke_step(st, Tool::Fill, ev, brush, fill_mode).0.drawing,
{
    let r = spec_stroke_step(st, Tool::Fill, ev, brush, fill_mode);
    assert(r.2 =~= seq![DrawAction::Fill { x: ev.x, y: ev.y, color: brush }]);
}

/// A line stroke draws the line from where it was pressed to where the
/// pointer was last held: press at `p`, hold the button over `q`, release
/// (anywhere, with no new click), and exactly that line is drawn once,
/// leaving no stroke in progress; neither the press nor the hold draws
/// anything.
pub proof fn lemma_line_stroke(
    press: PointerEvent,
    hold: PointerEvent,
    release: PointerEvent,
    brush: u8,
    fill_mode: bool,
)
    requires
        press.down,
        hold.down,
        !hold.clicked,
        !release.down,
        !release.clicked,
        !release.dragged,
    ensures
        ({
            let r1 = spec_stroke_step(idle_stroke(), Tool::Line, press, brush, fill_mode);
            let r2 = spec_stroke_step(r1.0, Tool::Line, hold, brush, fill_mode);
            let r3 = spec_stroke_step(r2.0, Tool::Line, release, brush, fill_mode);
            &&& r1.1
            &&& r1.2.len() == 0
            &&& r2.2.len() == 0
            &&& r3.2 == seq![
                DrawAction::Line {
                    x0: press.x,
                    y0: press.y,
                    x1: hold.x,
                    y1: hold.y,
                    color: brush,
                },
            ]
            &&& !r3.0.drawing
        }),
{
    let r1 = spec_stroke_step(idle_stroke(), Tool::Line, press, brush, fill_mode);
    let r2 = spec_stroke_step(r1.0, Tool::Line, hold, brush, fill_mode);
    let r3 = spec_stroke_step(r2.0, Tool::Line, release, brush, fill_mode);
    assert(r1.2 =~= Seq::<DrawAction>::empty());
    assert(r2.2 =~= Seq::<DrawAction>::empty());
    assert(r3.2 =~= seq![
        DrawAction::Line { x0: press.x, y0: press.y, x1: hold.x, y1: hold.y, color: brush },
    ]);
}

} // verus!
