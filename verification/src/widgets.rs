//! The spinner widget's value logic.
//!
//! The spinner holds a current value inside a closed range and moves it by
//! one of four buttons: one step up, one step down, straight to the
//! highest, straight to the lowest. Layout and drawing live outside this
//! crate; what is verified is that the value never leaves its range.

use vstd::prelude::*;

verus! {

/// Which spinner button fired.
#[derive(Clone, Copy, PartialEq, Eq, Structural, Debug)]
pub enum SpinnerAction {
    Up,
    Down,
    Max,
    Min,
}

/// A bounded value picker.
#[derive(Clone, Copy, PartialEq, Eq, Structural, Debug)]
pub struct Spinner {
    pub low: usize,
    pub high: usize,
    pub current: usize,
}

impl Spinner {
    /// In range: the current value sits between the bounds.
    pub open spec fn wf(&self) -> bool {
        self.low <= self.current <= self.high
    }

    /// A spinner over `[low, high]` starting at `current`.
    pub fn new(low: usize, high: usize, current: usize) -> (r: Spinner)
        requires
            low <= current <= high,
        ensures
            r == (Spinner { low, high, current }),
            r.wf(),
    {
        Spinner { low, high, current }
    }

    /// Applies one button: up and down move by one and stick at the
    /// bounds; max and min jump to them.
    pub fn event(&mut self, action: SpinnerAction)
        requires
            old(self).wf(),
        ensures
            final(self).wf(),
            final(self).low == old(self).low,
            final(self).high == old(self).high,
            final(self).current == match action {
                SpinnerAction::Up => if old(self).current == old(self).high {
                    old(self).current
                } else {
                    (old(self).current + 1) as usize
                },
                SpinnerAction::Down => if old(self).current == old(self).low {
                    old(self).current
                } else {
                    (old(self).current - 1) as usize
                },
                SpinnerAction::Max => old(self).high,
                SpinnerAction::Min => old(self).low,
            },
    {
        match action {
            SpinnerAction::Up => {
                if self.current != self.high {
                    self.current = self.current + 1;
                }
            },
            SpinnerAction::Down => {
                if self.current != self.low {
                    self.current = self.current - 1;
                }
            },
            SpinnerAction::Max => {
                self.current = self.high;
            },
            SpinnerAction::Min => {
                self.current = self.low;
            },
        }
    }
}

} // verus!
