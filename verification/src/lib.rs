//! Diffing Minecraft schematics in the terminal.

pub mod changes;
pub mod cli;
pub mod color;
pub mod error;
pub mod font;
pub mod format;
pub mod kitty;
pub mod layout;
pub mod mesh;
pub mod nbt;
pub mod palette;
pub mod raster;
pub mod render;
pub mod report;
pub mod scene;
pub mod schematic;
pub mod single;
pub mod snapshot;
pub mod snbt;
pub mod stat;
pub mod subset;
pub mod terminal;
pub mod text;
