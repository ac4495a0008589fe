//! What every panel offers to an application.
use vstd::prelude::*;

use crate::display_connector::{Error, Result};

verus! {

/// The colour index of a quantised pixel from the level of its first
/// channel: below 85 black, below 170 the accent colour, else white.
pub fn palette_index(level: u8) -> (r: u8)
    ensures
        r == (if level < 85 {
            0u8
        } else if level < 170 {
            1u8
        } else {
            2u8
        }),
{
    if level < 85 {
        0
    } else if level < 170 {
        1
    } else {
        2
    }
}

/// A panel that can be brought up, cleared, and painted from a pixel source.
///
/// A pixel source maps a coordinate `(x, y)` to a colour index: 0 black,
/// 1 the accent colour, 2 white; any other value is drawn as the panel's
/// fallback colour. It may be called more than once for the same pixel.
pub trait EPaperDisplay {
    /// The width in pixels.
    spec fn panel_width(&self) -> u16;

    /// The height in pixels.
    spec fn panel_height(&self) -> u16;

    /// How many operations on the wiring have failed so far. A call with no
    /// failure on the wiring succeeds unless a wait for readiness spent its
    /// whole polling budget.
    spec fn faults(&self) -> nat;

    /// Resets the panel and writes its configuration.
    fn init(&mut self) -> (r: Result<()>)
        ensures
            final(self).panel_width() == old(self).panel_width(),
            final(self).panel_height() == old(self).panel_height(),
            final(self).faults() >= old(self).faults(),
            final(self).faults() != old(self).faults() ==> r is Err,
            final(self).faults() == old(self).faults() ==> r is Ok || r == Err::<(), Error>(
                Error::BusyTimeout,
            ),
    ;

    /// Sends the image that `source` paints and refreshes the panel.
    fn push_image_with<F: Fn(u32, u32) -> u8>(&mut self, source: F) -> (r: Result<()>)
        requires
            forall|x: u32, y: u32| source.requires((x, y)),
        ensures
            final(self).panel_width() == old(self).panel_width(),
            final(self).panel_height() == old(self).panel_height(),
            final(self).faults() >= old(self).faults(),
            final(self).faults() != old(self).faults() ==> r is Err,
            final(self).faults() == old(self).faults() ==> r is Ok || r == Err::<(), Error>(
                Error::BusyTimeout,
            ),
    ;

    /// Fills the panel with a blank image and refreshes it.
    fn clear(&mut self) -> (r: Result<()>)
        ensures
            final(self).panel_width() == old(self).panel_width(),
            final(self).panel_height() == old(self).panel_height(),
            final(self).faults() >= old(self).faults(),
            final(self).faults() != old(self).faults() ==> r is Err,
            final(self).faults() == old(self).faults() ==> r is Ok || r == Err::<(), Error>(
                Error::BusyTimeout,
            ),
    ;

    fn width(&self) -> (r: u16)
        ensures
            r == self.panel_width(),
    ;

    fn height(&self) -> (r: u16)
        ensures
            r == self.panel_height(),
    ;
}

} // verus!
