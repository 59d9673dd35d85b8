//! The slice of per-frame input state that event handling decides on.
//!
//! Rendering, textures and the window itself live outside this crate; what
//! is modeled here is the plain data an event handler reads — where the
//! cursor went, what was pressed, whether the canvas is being dragged, and
//! whether the one click of this frame was already consumed — and the two
//! decisions made from it: whether to redo mouseover, and whether a click
//! counts as a normal left click.

use vstd::prelude::*;

verus! {

/// A point on the screen, in pixels.
#[derive(Clone, Copy, PartialEq, Eq, Structural, Debug)]
pub struct ScreenPt {
    pub x: i64,
    pub y: i64,
}

/// What happened this frame.
#[derive(Clone, Copy, PartialEq, Eq, Structural, Debug)]
pub enum InputEvent {
    NoOp,
    WindowLostCursor,
    MouseMovedTo(ScreenPt),
    MouseWheelScroll(i64, i64),
    LeftMouseButtonReleased,
}

/// This frame's event and whether some handler already consumed it.
#[derive(Clone, Copy, PartialEq, Eq, Structural, Debug)]
pub struct UserInput {
    pub event: InputEvent,
    pub event_consumed: bool,
}

impl UserInput {
    pub open spec fn spec_moved_mouse(&self) -> Option<ScreenPt> {
        match self.event {
            InputEvent::MouseMovedTo(pt) => Some(pt),
            _ => None,
        }
    }

    pub fn window_lost_cursor(&self) -> (r: bool)
        ensures
            r == (self.event is WindowLostCursor),
    {
        match self.event {
            InputEvent::WindowLostCursor => true,
            _ => false,
        }
    }

    pub fn get_moved_mouse(&self) -> (r: Option<ScreenPt>)
        ensures
            r == self.spec_moved_mouse(),
    {
        match self.event {
            InputEvent::MouseMovedTo(pt) => Some(pt),
            _ => None,
        }
    }

    pub fn get_mouse_scroll(&self) -> (r: Option<(i64, i64)>)
        ensures
            match self.event {
                InputEvent::MouseWheelScroll(dx, dy) => r == Some((dx, dy)),
                _ => r is None,
            },
    {
        match self.event {
            InputEvent::MouseWheelScroll(dx, dy) => Some((dx, dy)),
            _ => None,
        }
    }

    pub fn left_mouse_button_released(&self) -> (r: bool)
        ensures
            r == (self.event is LeftMouseButtonReleased),
    {
        match self.event {
            InputEvent::LeftMouseButtonReleased => true,
            _ => false,
        }
    }

    pub fn has_been_consumed(&self) -> (r: bool)
        ensures
            r == self.event_consumed,
    {
        self.event_consumed
    }

    pub fn consume_event(&mut self)
        ensures
            final(self).event == old(self).event,
            final(self).event_consumed,
    {
        self.event_consumed = true;
    }
}

/// The canvas state the event handler reads: window size and drag state.
#[derive(Clone, Copy, PartialEq, Eq, Structural, Debug)]
pub struct Canvas {
    pub window_width: u32,
    pub window_height: u32,
    pub drag_canvas_from: Option<ScreenPt>,
    pub drag_just_ended: bool,
}

/// The per-frame context an event handler decides on.
#[derive(Clone, Copy, PartialEq, Eq, Structural, Debug)]
pub struct EventCtx {
    pub fake_mouseover: bool,
    pub input: UserInput,
    pub canvas: Canvas,
}

impl EventCtx {
    /// Whether mouseover must be recomputed this frame: a forced
    /// recomputation, a lost cursor, a real mouse move outside a drag, or a
    /// vertical scroll.
    pub fn redo_mouseover(&self) -> (r: bool)
        ensures
            r == (self.fake_mouseover || self.input.event is WindowLostCursor || (!self.spec_dragging()
                && self.input.spec_moved_mouse() is Some) || (match self.input.event {
                InputEvent::MouseWheelScroll(_, dy) => dy != 0,
                _ => false,
            })),
    {
        self.fake_mouseover || self.input.window_lost_cursor() || (!self.is_dragging()
            && self.input.get_moved_mouse().is_some()) || (match self.input.get_mouse_scroll() {
            Some((_, dy)) => dy != 0,
            None => false,
        })
    }

    /// Whether this frame's input counts as a normal left click: the click
    /// was not consumed yet and did not end a canvas drag. A counted click
    /// is consumed, so no other handler sees it.
    pub fn normal_left_click(&mut self) -> (r: bool)
        ensures
            r == (!old(self).input.event_consumed && !old(self).spec_dragging() && old(
                self,
            ).input.event is LeftMouseButtonReleased),
            r ==> final(self).input.event_consumed,
            final(self).input.event == old(self).input.event,
            final(self).canvas == old(self).canvas,
            final(self).fake_mouseover == old(self).fake_mouseover,
            !r ==> final(self).input.event_consumed == old(self).input.event_consumed,
    {
        if self.input.has_been_consumed() {
            return false;
        }
        if !self.is_dragging() && self.input.left_mouse_button_released() {
            self.input.consume_event();
            return true;
        }
        false
    }

    /// Whether the canvas is being dragged, or a drag just ended.
    pub open spec fn spec_dragging(&self) -> bool {
        self.canvas.drag_canvas_from is Some || self.canvas.drag_just_ended
    }

    fn is_dragging(&self) -> (r: bool)
        ensures
            r == self.spec_dragging(),
    {
        self.canvas.drag_canvas_from.is_some() || self.canvas.drag_just_ended
    }
}

} // verus!
