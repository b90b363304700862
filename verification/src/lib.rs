pub mod text;
pub mod block;
pub mod order;
pub mod lookup;
pub mod mcdata;
pub mod category;
pub mod overrides;
pub mod paths;
pub mod palette;
pub mod plan;
pub mod report;
pub mod schematic;
pub mod inspect;
pub mod selection;
pub mod cli;
pub mod tags;
pub mod extract;
pub mod jar;
pub mod complete;
pub mod commands;
pub mod errors;
