//! A personal flashcard study tool: a card deck and a result log kept as
//! tab-separated text, random quiz sampling, and study statistics.
pub mod calendar;
pub mod quiz;
pub mod record;
pub mod sampler;
pub mod stats;
pub mod table;
pub mod text;
