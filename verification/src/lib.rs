//! Statistics over the WCA results export: calendar helpers, record and
//! ranking computations, and the integer data structures they rest on.
pub mod dates;
pub mod sort;
pub mod progression;
pub mod fenwick;
pub mod search;
pub mod pbs;
pub mod wr_cross_rank;
pub mod wr_longevity;
pub mod wr_half_life;
pub mod first_records;
pub mod relay;
pub mod sub_x;
pub mod nations_cup;
pub mod ranks_export;
pub mod ranking_countries;
pub mod skill;
pub mod models;
pub mod index;
pub mod ranking;
pub mod mbld;
pub mod nth_solve;
pub mod two_man;
pub mod skill_sim;
pub mod rows;
