//! PDF-specific decoding (`ToUnicode` CMaps, glyph names) and the page
//! records of the PDF path.

pub mod cmap;
pub mod glyphs;
pub mod load;
pub mod page;
pub mod objects;
