pub mod args;
pub mod builder;
pub mod custom;
pub mod linkedlist;
pub mod passes;
pub mod pattern;
pub mod render;
pub mod search;
pub mod splice;
pub mod text;
pub mod token;
pub mod voids;
