//! A video and live TV player's library: source configuration, MacCMS replies,
//! live channel lists, the HLS proxy's playlist filtering and rewriting, play
//! history and the window's request handling, each with its contract.
mod text;
mod bindings;
pub mod live;
pub mod order;
pub mod model;
pub mod config;
pub mod duration;
pub mod ads;
pub mod proxy;
pub mod cms;
pub mod selection;
pub mod history;
pub mod window;
