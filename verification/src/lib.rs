pub mod card;
pub mod tracker;
pub mod seqs;
pub mod straight;
pub mod hand;
pub mod combos;
pub mod results;
pub mod deck;
pub mod simulate;
pub mod invariance;
pub mod equity;
pub mod monotone;
