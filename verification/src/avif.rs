//! The AVIF container: boxes, items, their properties, and the primary image.
pub mod boxes;
pub mod props;
pub mod meta;
pub mod container;
pub mod decoder;
pub mod layout;
