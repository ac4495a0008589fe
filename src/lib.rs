//! Driver for three-colour e-paper panels: a byte transport, two controller
//! command sets, and the displays built on them.
pub mod display;
pub mod display_connector;
pub mod epd7in5_tri_v1;
pub mod epd7in5_tri_v2;
pub mod gd7965;
pub mod il0371;

pub use display::EPaperDisplay;
pub use epd7in5_tri_v1::EPaper75TriColour;
pub use epd7in5_tri_v2::EPaper75TriColourV2;
