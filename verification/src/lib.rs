//! Colour mixing for the "Joy of Painting" dye rules: colours are mixed by
//! averaging their channels and rescaling by an integer gain, and a target
//! colour is approached by repeatedly mixing inside a bounding tetrahedron of
//! already available colours.

pub mod bounds;
pub mod choice;
pub mod color;
pub mod colormap;
pub mod finder;
pub mod mixing;
pub mod recipe;
pub mod search;

pub use bounds::ColorBounds;
pub use color::{Color, ColorParseError};
pub use colormap::ColorMap;
pub use finder::{closest_mixed_color, find_color_mix, try_find_color_mix, MixSearchError};
pub use mixing::MixedColor;
pub use recipe::{mix_dep_order, recipe_is_finite, Label, MixDisplayInfo};
pub use search::MAX_MIX_PARTS;
