//! A rectangular grid of cells with stable identities, flood fill and perimeter queries,
//! and a turn-based stone game built on it.

pub mod commands;
pub mod go;
pub mod grid;
pub mod life;
pub mod numbers;
pub mod text;
