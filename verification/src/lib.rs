pub mod antennas;
pub mod calibration;
pub mod disk;
pub mod instructions;
pub mod location_lists;
pub mod page_order;
pub mod parse;
pub mod patrol;
pub mod reports;
pub mod word_search;
