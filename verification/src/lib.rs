//! Claim Lands: the rules, level format and match flow of a territory game on a hex sphere.

pub mod faction;
pub mod text;
pub mod world;
pub mod tile;
pub mod board;
pub mod image;
pub mod noise;
pub mod command;
pub mod constants;
pub mod state;
pub mod territory;
pub mod apply;
pub mod level;
pub mod ai;
pub mod session;
pub mod render;
pub mod ui;
pub mod shell;
pub mod scenery;
pub mod terrain;
pub mod level_text;
pub mod round_trip;
pub mod mesh;
