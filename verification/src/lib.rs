//! Rules engine for Sueca, a four-player, two-team trick-taking card game:
//! deck construction, hand dealing, trick resolution under a trump suit, and
//! team score accumulation.

pub mod deck;
pub mod game;
