//! Verified core of a viewer for municipal election results.
//!
//! The library turns the raw material of an election (the results page of
//! the city, the semicolon separated table of results per district, the
//! GeoJSON of the district boundaries) into vote records, and it renders
//! the map page.  Network and file access, floating point work (vote shares,
//! reprojection of coordinates) and the web server live outside the library.
pub mod assoc;
pub mod config;
pub mod feature;
pub mod geometry;
pub mod harvest;
pub mod map_page;
pub mod text;
pub mod votes;
