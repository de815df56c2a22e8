//! Canvas gestures: drags orbit or pan, the wheel zooms, clean clicks pick.

use crate::scalar::consts::{HALF, ONE, TWO, ZERO};
use crate::scalar::{scalar, Scalar};
use crate::scene::{picked, skyline};
use crate::sim::agent::Position;
use vstd::prelude::*;

verus! {

/// A press that travels less than this counts as a click (5).
pub const CLICK_TRAVEL_PX: u32 = 0x40a0_0000;

/// Zoom per wheel step (0.002).
pub const ZOOM_RATE: u32 = 0x3b03_126f;

/// Size that stands in for a canvas not laid out yet (1600 x 900).
pub const FALLBACK_WIDTH: u32 = 0x44c8_0000;

pub const FALLBACK_HEIGHT: u32 = 0x4461_0000;

#[derive(Clone, Copy, Debug, PartialEq, Eq, Structural)]
pub enum PointerButton {
    Primary,
    Secondary,
    Tertiary,
}

/// A drag in progress.
#[derive(Clone, Copy, Debug, PartialEq, Eq, Structural)]
pub struct DragState {
    pub button: PointerButton,
    pub last_x: Scalar,
    pub last_y: Scalar,
    /// Accumulated travel.
    pub travel: Scalar,
    pub pan: bool,
}

/// What the camera is to do.
#[derive(Clone, Copy, Debug, PartialEq, Eq, Structural)]
pub enum CameraMove {
    Stay,
    Orbit { dx: Scalar, dy: Scalar },
    Pan { dx: Scalar, dy: Scalar },
}

/// What a pointer that moved or was released asks for.
#[derive(Clone, Copy, Debug, PartialEq, Eq, Structural)]
pub enum Ask {
    /// Nothing.
    Nothing,
    /// What lies under the pointer, to hover over.
    Hover,
    /// What lies under the pointer, to click on.
    Click,
}

/// A canvas event for the user interface. `screen` is the pointer position,
/// so that windows can be anchored to picks.
#[allow(inconsistent_fields)]
#[derive(Debug)]
pub enum PickEvent {
    Hover { id: Option<String>, screen: Position },
    Select { id: String, screen: Position },
    GroundClick { x: Scalar, z: Scalar },
}

/// Mathematical content of a [`PickEvent`].
#[allow(inconsistent_fields)]
pub ghost enum PickView {
    Hover { id: Option<Seq<char>>, screen: Position },
    Select { id: Seq<char>, screen: Position },
    GroundClick { x: Scalar, z: Scalar },
}

impl View for PickEvent {
    type V = PickView;

    open spec fn view(&self) -> PickView {
        match *self {
            PickEvent::Hover { id, screen } => PickView::Hover {
                id: match id {
                    Some(s) => Some(s@),
                    None => None,
                },
                screen,
            },
            PickEvent::Select { id, screen } => PickView::Select { id: id@, screen },
            PickEvent::GroundClick { x, z } => PickView::GroundClick { x, z },
        }
    }
}

/// Size of the canvas for a laid-out rect.
pub open spec fn canvas(w: Scalar, h: Scalar) -> (Scalar, Scalar) {
    if scalar(ONE).lt_spec(h) {
        (w, h)
    } else {
        (scalar(FALLBACK_WIDTH), scalar(FALLBACK_HEIGHT))
    }
}

pub fn canvas_size(w: Scalar, h: Scalar) -> (r: (Scalar, Scalar))
    ensures
        r == canvas(w, h),
{
    if scalar(ONE).lt(h) {
        (w, h)
    } else {
        (scalar(FALLBACK_WIDTH), scalar(FALLBACK_HEIGHT))
    }
}

/// Width over height of the canvas for a laid-out rect.
pub fn aspect_ratio(w: Scalar, h: Scalar) -> (r: Scalar)
    ensures
        r == canvas(w, h).0.div_spec(canvas(w, h).1),
{
    let (cw, ch) = canvas_size(w, h);
    cw.div(ch)
}

/// The drag that a press starts: any button but the primary one pans, and so
/// does the shift key.
pub fn press(button: PointerButton, shift: bool, x: Scalar, y: Scalar) -> (r: DragState)
    ensures
        r == (DragState {
            button,
            last_x: x,
            last_y: y,
            travel: scalar(ZERO),
            pan: button != PointerButton::Primary || shift,
        }),
{
    DragState {
        button,
        last_x: x,
        last_y: y,
        travel: scalar(ZERO),
        pan: button != PointerButton::Primary || shift,
    }
}

/// How far the pointer has come since the drag last saw it.
pub open spec fn moved_by(d: DragState, x: Scalar, y: Scalar) -> Scalar {
    x.sub_spec(d.last_x).abs_spec().add_spec(y.sub_spec(d.last_y).abs_spec())
}

/// The drag after the pointer moved.
pub open spec fn dragged(d: DragState, x: Scalar, y: Scalar) -> DragState {
    DragState { travel: d.travel.add_spec(moved_by(d, x, y)), last_x: x, last_y: y, ..d }
}

/// What a move does to the camera.
pub open spec fn camera_move(d: DragState, x: Scalar, y: Scalar) -> CameraMove {
    let dx = x.sub_spec(d.last_x);
    let dy = y.sub_spec(d.last_y);
    if !scalar(ZERO).lt_spec(moved_by(d, x, y)) {
        CameraMove::Stay
    } else if d.pan {
        CameraMove::Pan { dx, dy }
    } else {
        CameraMove::Orbit { dx, dy }
    }
}

/// The pointer moved: a drag goes on and moves the camera; without one, a
/// move in inspection mode hovers.
pub fn move_pointer(drag: &mut Option<DragState>, inspection: bool, x: Scalar, y: Scalar) -> (r: (
    CameraMove,
    Ask,
))
    ensures
        match *old(drag) {
            Some(d) => *final(drag) == Some(dragged(d, x, y)) && r.0 == camera_move(d, x, y) && r.1
                == Ask::Nothing,
            None => *final(drag) is None && r.0 == CameraMove::Stay && r.1 == (if inspection {
                Ask::Hover
            } else {
                Ask::Nothing
            }),
        },
{
    match *drag {
        Some(d) => {
            let dx: Scalar = x.sub(d.last_x);
            let dy: Scalar = y.sub(d.last_y);
            let by: Scalar = dx.abs().add(dy.abs());
            *drag =
            Some(
                DragState {
                    button: d.button,
                    last_x: x,
                    last_y: y,
                    travel: d.travel.add(by),
                    pan: d.pan,
                },
            );
            let how: CameraMove = if !scalar(ZERO).lt(by) {
                CameraMove::Stay
            } else if d.pan {
                CameraMove::Pan { dx, dy }
            } else {
                CameraMove::Orbit { dx, dy }
            };
            (how, Ask::Nothing)
        },
        None => if inspection {
            (CameraMove::Stay, Ask::Hover)
        } else {
            (CameraMove::Stay, Ask::Nothing)
        },
    }
}

/// The release of this drag is a clean click.
pub open spec fn is_click(d: DragState, consumed: bool) -> bool {
    d.button == PointerButton::Primary && d.travel.lt_spec(scalar(CLICK_TRAVEL_PX)) && !consumed
}

/// The pointer was released: the drag ends; a clean click with the primary
/// button asks what lies under the pointer.
pub fn release_pointer(drag: &mut Option<DragState>, consumed: bool) -> (r: Ask)
    ensures
        *final(drag) is None,
        r == (match *old(drag) {
            Some(d) => if is_click(d, consumed) {
                Ask::Click
            } else {
                Ask::Nothing
            },
            None => Ask::Nothing,
        }),
{
    let held: Option<DragState> = *drag;
    *drag = None;
    match held {
        Some(d) => if d.button == PointerButton::Primary && d.travel.lt(scalar(CLICK_TRAVEL_PX))
            && !consumed {
            Ask::Click
        } else {
            Ask::Nothing
        },
        None => Ask::Nothing,
    }
}

/// The block that covers a ground point.
pub open spec fn block_under(ground: Option<Position>) -> Option<Seq<char>> {
    match ground {
        Some(p) => match picked(p, 7) {
            Some(x) => Some(skyline()[x.1].id),
            None => None,
        },
        None => None,
    }
}

/// The event that hovering over a ground point makes.
pub fn hover_event(ground: Option<Position>, screen: Position) -> (r: PickEvent)
    ensures
        r@ == (PickView::Hover { id: block_under(ground), screen }),
{
    let id: Option<String> = match ground {
        Some(p) => match crate::scene::pick(p) {
            Some(b) => Some(b.id.to_owned()),
            None => None,
        },
        None => None,
    };
    PickEvent::Hover { id, screen }
}

/// The event that a click on a ground point makes: in inspection mode the
/// block under it is selected; anything else is a click on the ground. A
/// click that misses the ground makes none.
pub fn click_event(ground: Option<Position>, inspection: bool, screen: Position) -> (r: Option<
    PickEvent,
>)
    ensures
        match r {
            Some(e) => ground matches Some(p) && e@ == (if inspection && block_under(
                ground,
            ) is Some {
                PickView::Select { id: block_under(ground)->0, screen }
            } else {
                PickView::GroundClick { x: p.x, z: p.z }
            }),
            None => ground is None,
        },
{
    let p: Position = match ground {
        Some(p) => p,
        None => {
            return None;
        },
    };
    if inspection {
        if let Some(b) = crate::scene::pick(p) {
            return Some(PickEvent::Select { id: b.id.to_owned(), screen });
        }
    }
    Some(PickEvent::GroundClick { x: p.x, z: p.z })
}

/// The event that the pointer leaving the canvas makes.
pub fn leave_event(inspection: bool) -> (r: Option<PickEvent>)
    ensures
        match r {
            Some(e) => inspection && e@ == (PickView::Hover {
                id: None,
                screen: Position { x: scalar(ZERO), z: scalar(ZERO) },
            }),
            None => !inspection,
        },
{
    if inspection {
        Some(
            PickEvent::Hover { id: None, screen: Position { x: scalar(ZERO), z: scalar(ZERO) } },
        )
    } else {
        None
    }
}

/// Zoom factor of a wheel step; none for a step too small to count.
pub open spec fn zoom_spec(dy: Scalar) -> Option<Scalar> {
    if scalar(HALF).lt_spec(dy.abs_spec()) {
        Some(
            scalar(ONE).add_spec(dy.neg_spec().mul_spec(scalar(ZOOM_RATE))).clamp_spec(
                scalar(HALF),
                scalar(TWO),
            ),
        )
    } else {
        None
    }
}

pub fn zoom_factor(dy: Scalar) -> (r: Option<Scalar>)
    ensures
        r == zoom_spec(dy),
{
    if scalar(HALF).lt(dy.abs()) {
        Some(scalar(ONE).add(dy.neg().mul(scalar(ZOOM_RATE))).clamp(scalar(HALF), scalar(TWO)))
    } else {
        None
    }
}

/// A press and release in place is a click with the primary button and none
/// with any other, whatever the shift key.
pub proof fn law_press_and_release_is_a_click(
    button: PointerButton,
    shift: bool,
    x: Scalar,
    y: Scalar,
)
    ensures
        ({
            let d = DragState {
                button,
                last_x: x,
                last_y: y,
                travel: scalar(ZERO),
                pan: button != PointerButton::Primary || shift,
            };
            is_click(d, false) <==> button == PointerButton::Primary
        }),
{
    crate::scalar::order::lemma_one();
    crate::scalar::round::lemma_magnitude_increases(0, CLICK_TRAVEL_PX as nat);
}

} // verus!
