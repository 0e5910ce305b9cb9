//! Life progress: how much of an expected lifespan has passed, and a fuzzy
//! search over the country names of a life-expectancy table.

pub mod calendar;
pub mod fuzzy;
pub mod matching;
pub mod optimum;
pub mod progress;
pub mod ranking;
pub mod table;
pub mod text;
