//! Decoders for a pair of geospatial file formats: the attribute table of
//! fixed-length records with typed columns, and the companion geometry file
//! of variable-length shape records.
//!
//! Both decoders work on the bytes of a whole file and are verified against
//! a mathematical description of the two layouts.

pub mod bytes;
pub mod text;
pub mod dbf;
pub mod shapefile;
