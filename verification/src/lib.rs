pub mod document;
pub mod encoding;
pub mod layout;
pub mod names;
pub mod object;
pub mod page;
pub mod preview;
pub mod raster;
pub mod watermark;
