//! Settlement of prediction markets: the market lifecycle, the bonds held
//! against creators, oracles and disputers, and the resolution that pays
//! them out.

pub mod account;
pub mod config;
pub mod error;
pub mod laws;
pub mod ledger;
pub mod local;
pub mod market;
pub mod module;
pub mod pools;
pub mod registry;
pub mod reporting;
pub mod resolution;
pub mod scheduler;
pub mod state;
pub mod trading;

pub use account::AccountId;
pub use config::Config;
pub use error::Error;
pub use ledger::{Refused, Trait};
pub use local::LocalChain;
pub use module::{remove_item, Module};
pub use state::{State, Window};
pub use market::{
    Asset, Market, MarketCreation, MarketDispute, MarketEnd, MarketStatus, MarketType, Report, Time,
};
