//! What the session does in answer to an input event. The event loop itself
//! and the arithmetic on the view live with the windowing code; the rules
//! are here.

use vstd::prelude::*;

verus! {

/// How far one key press pans, as a share of the visible width: the centre
/// moves by `PAN_STEP * scale / viewport width`.
pub const PAN_STEP: u32 = 5;

/// What a scroll delta counted in lines is divided by before it scales the
/// view.
pub const LINE_SCROLL_DIVISOR: u32 = 100;

/// What a scroll delta counted in pixels is divided by before it scales
/// the view.
pub const PIXEL_SCROLL_DIVISOR: u32 = 1000;

/// The keys that the session tells apart.
#[derive(Clone, Copy, Debug, PartialEq, Eq, Structural)]
pub enum Key {
    Left,
    Right,
    Other,
}

/// The unit in which a scroll delta is counted.
#[derive(Clone, Copy, Debug, PartialEq, Eq, Structural)]
pub enum ScrollUnit {
    Line,
    Pixel,
}

/// The size of the render target in pixels.
#[derive(Clone, Copy, Debug, PartialEq, Eq, Structural)]
pub struct Viewport {
    pub width: u32,
    pub height: u32,
}

/// An input event, without the floating-point values it may carry.
#[derive(Clone, Copy, Debug, PartialEq, Eq, Structural)]
pub enum Event {
    /// The window has a new size.
    Resized { width: u32, height: u32 },
    /// All pending events are handled and a frame is due.
    FrameDue,
    /// A key was pressed or released.
    KeyInput { key: Key },
    /// The cursor moved.
    CursorMoved,
    /// The wheel turned.
    MouseWheel { unit: ScrollUnit },
    /// The window is to close.
    CloseRequested,
    /// Anything else.
    Other,
}

/// What the event loop is to do.
#[derive(Clone, Copy, Debug, PartialEq, Eq, Structural)]
pub enum Command {
    /// Recreate the render target in the new size.
    Resize { width: u32, height: u32 },
    /// Draw a frame.
    Draw,
    /// Move the centre by `direction * step * scale / width`; `direction`
    /// is -1 for left and 1 for right.
    Pan { direction: i8, step: u32, width: u32 },
    /// Remember where the cursor is.
    TrackCursor,
    /// Multiply the scale by `1 - delta / divisor`.
    Zoom { divisor: u32 },
    /// Leave the event loop.
    Exit,
    /// Nothing.
    Ignore,
}

/// The divisor that goes with a scroll unit.
pub open spec fn spec_zoom_divisor(unit: ScrollUnit) -> u32 {
    match unit {
        ScrollUnit::Line => LINE_SCROLL_DIVISOR,
        ScrollUnit::Pixel => PIXEL_SCROLL_DIVISOR,
    }
}

/// The direction in which a key pans, if it pans.
pub open spec fn spec_pan_direction(key: Key) -> Option<i8> {
    match key {
        Key::Left => Some(-1i8),
        Key::Right => Some(1i8),
        Key::Other => None,
    }
}

/// The viewport after an event: a resize replaces it, nothing else touches
/// it.
pub open spec fn next_viewport(viewport: Viewport, event: Event) -> Viewport {
    match event {
        Event::Resized { width, height } => Viewport { width, height },
        _ => viewport,
    }
}

/// The command that answers an event.
pub open spec fn command_for(viewport: Viewport, event: Event) -> Command {
    match event {
        Event::Resized { width, height } => Command::Resize { width, height },
        Event::FrameDue => Command::Draw,
        Event::KeyInput { key } => match spec_pan_direction(key) {
            Some(direction) => Command::Pan { direction, step: PAN_STEP, width: viewport.width },
            None => Command::Ignore,
        },
        Event::CursorMoved => Command::TrackCursor,
        Event::MouseWheel { unit } => Command::Zoom { divisor: spec_zoom_divisor(unit) },
        Event::CloseRequested => Command::Exit,
        Event::Other => Command::Ignore,
    }
}

/// The divisor that goes with a scroll unit.
pub fn zoom_divisor(unit: ScrollUnit) -> (divisor: u32)
    ensures
        divisor == spec_zoom_divisor(unit),
        divisor > 0,
{
    match unit {
        ScrollUnit::Line => LINE_SCROLL_DIVISOR,
        ScrollUnit::Pixel => PIXEL_SCROLL_DIVISOR,
    }
}

/// The direction in which a key pans, if it pans.
pub fn pan_direction(key: Key) -> (direction: Option<i8>)
    ensures
        direction == spec_pan_direction(key),
{
    match key {
        Key::Left => Some(-1i8),
        Key::Right => Some(1i8),
        Key::Other => None,
    }
}

/// Answers an event: the viewport as it is after the event, and what the
/// event loop is to do.
pub fn handle_event(viewport: Viewport, event: Event) -> (next: (Viewport, Command))
    ensures
        next.0 == next_viewport(viewport, event),
        next.1 == command_for(viewport, event),
{
    match event {
        Event::Resized { width, height } => (
            Viewport { width, height },
            Command::Resize { width, height },
        ),
        Event::FrameDue => (viewport, Command::Draw),
        Event::KeyInput { key } => match pan_direction(key) {
            Some(direction) => (
                viewport,
                Command::Pan { direction, step: PAN_STEP, width: viewport.width },
            ),
            None => (viewport, Command::Ignore),
        },
        Event::CursorMoved => (viewport, Command::TrackCursor),
        Event::MouseWheel { unit } => (viewport, Command::Zoom { divisor: zoom_divisor(unit) }),
        Event::CloseRequested => (viewport, Command::Exit),
        Event::Other => (viewport, Command::Ignore),
    }
}

} // verus!
