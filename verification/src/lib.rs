pub mod map_point;
pub mod grid;
pub mod flood;
pub mod path_find;
pub mod map;
pub mod survey;
pub mod scan;
pub mod refine;
pub mod laws;
