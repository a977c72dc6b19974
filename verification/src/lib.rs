//! Spatial reasoning for a board of hexagonal tiles.
//!
//! The crate models a hex board in axial coordinates: conversion from
//! offset grid indices, the hex distance metric, neighbourhood and
//! directional-cone queries, pixel projection and its rounding inverse,
//! line interpolation, shortest paths around obstacles, corner-sampled
//! line of sight, rotation of tile patterns, and the dice used to
//! resolve actions on such a board.

pub mod board;
pub mod coordinates;
pub mod damage;
pub mod dice;
pub mod direction;
pub mod line;
pub mod los;
pub mod pixel;
mod rng;
pub mod rounding;
pub mod search;
pub mod shape;
pub mod tile;
