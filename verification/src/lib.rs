//! Build strings carrying ANSI SGR escape sequences: encode style
//! attributes as numeric codes, wrap content between an escape prefix
//! and a trailing reset, and strip or trim styling back off.

mod color;
mod font;

pub use color::StyledBuilder;
pub use color::cs;
pub use color::cs_parts;
pub use color::wcs;
pub use color::wcs_parts;
pub use font::Font;
pub use font::FontTool;
pub use font::fonts;
pub use font::wf;
